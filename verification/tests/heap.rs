use rust_kernel::slab_allocator::{block_size, SlabAllocator, HEAP_SIZE, HEAP_START,
    NUM_BLOCK_SIZES};

fn fresh_heap() -> SlabAllocator {
    let mut a = SlabAllocator::new();
    a.init(HEAP_START, HEAP_SIZE);
    a
}

// the heap is split into NUM_BLOCK_SIZES + 1 equal shares
const SHARE: u64 = HEAP_SIZE / (NUM_BLOCK_SIZES as u64 + 1);

// where class i's pool starts: its share's start rounded up to the
// class's block size
fn class_start(i: usize) -> u64 {
    let base = HEAP_START + i as u64 * SHARE;
    let bs = block_size(i);
    let rem = base % bs;
    if rem == 0 { base } else { base + (bs - rem) }
}

// how many bytes of its share class i's pool keeps
fn class_size(i: usize) -> u64 {
    SHARE - (class_start(i) - (HEAP_START + i as u64 * SHARE))
}

#[test]
fn size_class_boundaries_route_to_adjacent_classes() {
    let a = fresh_heap();
    for i in 0..NUM_BLOCK_SIZES {
        let bs = block_size(i);
        // exactly the block size routes to class i
        assert_eq!(a.find_slab_index(bs, 1), Some(i));
        // one byte more routes to the next class
        if i + 1 < NUM_BLOCK_SIZES {
            assert_eq!(a.find_slab_index(bs + 1, 1), Some(i + 1));
        } else {
            assert_eq!(a.find_slab_index(bs + 1, 1), None);
        }
    }
    // alignment routes as well as size
    assert_eq!(a.find_slab_index(8, 64), Some(3));
    assert_eq!(a.find_slab_index(4097, 1), None);
}

#[test]
fn allocation_comes_from_the_fitting_class_region() {
    let mut a = fresh_heap();
    let p = a.allocate(4096, 8).expect("allocation expected");
    let start = class_start(9);
    assert!(p >= start && p < HEAP_START + 10 * SHARE);
    assert_eq!((p - start) % 4096, 0);
    // pool blocks are aligned to their class's block size
    assert_eq!(p % 4096, 0);
}

#[test]
fn pool_allocations_respect_the_requested_alignment() {
    let mut a = fresh_heap();
    let p16 = a.allocate(16, 16).expect("allocation expected");
    assert_eq!(p16 % 16, 0);
    let p64 = a.allocate(40, 64).expect("allocation expected");
    assert_eq!(p64 % 64, 0);
    let p8 = a.allocate(8, 8).expect("allocation expected");
    assert_eq!(p8 % 8, 0);
    let p4096 = a.allocate(4096, 4096).expect("allocation expected");
    assert_eq!(p4096 % 4096, 0);
}

#[test]
fn freed_block_is_returned_by_the_next_allocation() {
    let mut a = fresh_heap();
    let p1 = a.allocate(100, 8).expect("allocation expected");
    let p2 = a.allocate(100, 8).expect("allocation expected");
    assert_ne!(p1, p2);
    a.deallocate(p1, 100, 8);
    let p3 = a.allocate(100, 8).expect("allocation expected");
    assert_eq!(p3, p1);
}

#[test]
fn exhausted_class_falls_back_to_first_fit() {
    let mut a = fresh_heap();
    let blocks = class_size(9) / 4096;
    let mut got = Vec::new();
    for _ in 0..blocks {
        got.push(a.allocate(4096, 8).expect("class block expected"));
    }
    // the class is exhausted; the next request is served by the
    // fallback allocator, above every class region
    let fb = a.allocate(4096, 8).expect("fallback block expected");
    let fallback_start = HEAP_START + 10 * SHARE;
    assert!(fb >= fallback_start && fb + 4096 <= HEAP_START + HEAP_SIZE);
    for p in &got {
        assert!(*p < fallback_start);
    }
}

#[test]
fn oversized_requests_use_the_fallback_allocator() {
    let mut a = fresh_heap();
    let p = a.allocate(8192, 16).expect("oversized allocation expected");
    let fallback_start = HEAP_START + 10 * SHARE;
    assert!(p >= fallback_start);
    assert_eq!(p % 16, 0);
    // a freed fallback range is found again first-fit
    a.deallocate(p, 8192, 16);
    let q = a.allocate(8192, 16).expect("reallocation expected");
    assert_eq!(q, p);
}

#[test]
fn fallback_respects_alignment() {
    let mut a = fresh_heap();
    let p = a.allocate(5000, 256).expect("aligned allocation expected");
    assert_eq!(p % 256, 0);
}

#[test]
fn allocation_fails_only_when_nothing_fits() {
    let mut a = SlabAllocator::new();
    // an uninitialized heap owns no memory at all
    assert_eq!(a.allocate(8, 8), None);
    let mut b = fresh_heap();
    // larger than the whole heap
    assert_eq!(b.allocate(HEAP_SIZE, 8), None);
}

#[test]
fn slab_usage_reports_per_class_totals() {
    let mut a = fresh_heap();
    let baseline = a.slab_usage();
    assert_eq!(baseline.len(), NUM_BLOCK_SIZES);
    for (i, (bs, free, total)) in baseline.iter().enumerate() {
        assert_eq!(*bs, block_size(i));
        assert_eq!(*free, *total as usize);
        assert_eq!(*total, class_size(i) / block_size(i));
    }
    let p = a.allocate(8, 8).unwrap();
    let after = a.slab_usage();
    assert_eq!(after[0].1, baseline[0].1 - 1);
    a.deallocate(p, 8, 8);
    let restored = a.slab_usage();
    assert_eq!(restored[0].1, baseline[0].1);
}

#[test]
fn freed_fallback_neighbours_coalesce() {
    let mut a = fresh_heap();
    // two adjacent fallback allocations
    let p1 = a.allocate(8192, 8).expect("first oversized allocation");
    let p2 = a.allocate(8192, 8).expect("second oversized allocation");
    assert_eq!(p2, p1 + 8192);
    // freeing both merges them back into one hole, so a request for
    // the combined size fits again at the same place
    a.deallocate(p1, 8192, 8);
    a.deallocate(p2, 8192, 8);
    let q = a.allocate(16384, 8).expect("coalesced allocation");
    assert_eq!(q, p1);
}
