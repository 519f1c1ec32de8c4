use rust_kernel::init;
use rust_kernel::memory::frame_allocator::{MemoryRegion, MemoryRegionType};
use rust_kernel::memory::paging::virt_to_phys;
use rust_kernel::slab_allocator::{HEAP_SIZE, HEAP_START};
use rust_kernel::task::scheduler::{self, Scheduler};
use rust_kernel::task::TaskState;

/// A boot memory map with exactly two usable regions of known sizes:
/// 192 usable frames in all, enough for the 128 heap pages plus the
/// intermediate page tables.
fn boot_map() -> Vec<MemoryRegion> {
    vec![
        MemoryRegion { start: 0x10_0000, end: 0x14_0000, region_type: MemoryRegionType::Usable },
        MemoryRegion { start: 0x14_0000, end: 0x20_0000, region_type: MemoryRegionType::Reserved },
        MemoryRegion { start: 0x20_0000, end: 0x2C_0000, region_type: MemoryRegionType::Usable },
    ]
}

#[test]
fn boot_initialization_maps_the_whole_heap() {
    let core = init(boot_map()).expect("kernel init expected to succeed");
    for j in 0..HEAP_SIZE / 4096 {
        let page = HEAP_START + 4096 * j;
        let phys = virt_to_phys(&core.page_tables, page).expect("heap page mapped");
        assert_eq!(phys % 4096, 0);
    }
    // just beyond the heap nothing is mapped
    assert_eq!(virt_to_phys(&core.page_tables, HEAP_START + HEAP_SIZE), None);
    assert_eq!(virt_to_phys(&core.page_tables, 0), None);
}

#[test]
fn heap_frames_come_from_the_usable_regions() {
    let core = init(boot_map()).expect("kernel init expected to succeed");
    let in_usable = |f: u64| {
        (0x10_0000..0x14_0000).contains(&f) || (0x20_0000..0x2C_0000).contains(&f)
    };
    let mut frames = Vec::new();
    for j in 0..HEAP_SIZE / 4096 {
        let f = virt_to_phys(&core.page_tables, HEAP_START + 4096 * j).unwrap();
        assert!(in_usable(f), "frame {f:#x} outside the usable regions");
        assert!(!frames.contains(&f), "frame {f:#x} mapped twice");
        frames.push(f);
    }
}

#[test]
fn a_hundred_tasks_allocate_distinct_objects_and_restore_the_baseline() {
    let mut core = init(boot_map()).expect("kernel init expected to succeed");
    let mut sched = Scheduler::new();
    scheduler::init(&mut sched, &mut core.heap, 0x100).expect("idle task");
    let baseline = core.heap.slab_usage();

    let mut objects: Vec<u64> = Vec::new();
    let mut stacks: Vec<u64> = Vec::new();
    for n in 0..100 {
        let id = scheduler::spawn(&mut sched, &mut core.heap, "worker", 0x200 + n)
            .expect("spawn expected to succeed");
        let t = &sched.tasks[sched.tasks.len() - 1];
        assert_eq!(t.id, id);
        stacks.push(t.stack - 4096);
        // each task allocates one distinct small object
        let obj = core.heap.allocate(8, 8).expect("object allocation");
        objects.push(obj);
        // drive the scheduler; exactly one task runs at any instant
        scheduler::yield_task(&mut sched);
        let running = sched.tasks.iter().filter(|t| t.state == TaskState::Running).count();
        assert_eq!(running, 1);
        // release the stack immediately so a hundred workers fit
        let last = stacks.pop().unwrap();
        core.heap.deallocate(last, 4096, 16);
    }

    // no two live allocations alias the same 8-byte range
    for i in 0..objects.len() {
        for j in 0..i {
            let (a, b) = (objects[i], objects[j]);
            assert!(a + 8 <= b || b + 8 <= a, "objects {a:#x} and {b:#x} alias");
        }
    }

    // all workers complete: free their objects and mark them finished
    for (n, obj) in objects.iter().enumerate() {
        core.heap.deallocate(*obj, 8, 8);
        sched.set_task_state(2 + n, TaskState::Terminated);
    }
    // scheduling settles back on the idle task
    while scheduler::current_task_id(&sched) != 1 {
        scheduler::yield_task(&mut sched);
    }

    // heap utilization is back at the pre-spawn baseline
    let after = core.heap.slab_usage();
    assert_eq!(after, baseline);
}
