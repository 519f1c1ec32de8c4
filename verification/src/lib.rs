//! Core of a small x86-64 kernel: physical frame allocation, four-level
//! page-table walking and mapping, a slab-based heap allocator with a
//! first-fit fallback, and a cooperative round-robin task scheduler.
//!
//! Hardware state (the active page-table root, translation caches, the
//! register-level context switch) lives outside this crate; here every
//! structure is modelled as plain data so that each operation carries a
//! proved contract.

pub mod fs;
pub mod memory;
pub mod slab_allocator;
pub mod task;

use vstd::prelude::*;
use crate::memory::frame_allocator::{BootInfoFrameAllocator, MemoryRegion, memory_map_wf,
    usable_frames};
use crate::memory::paging::{PageTables, MapError, page_at};
use crate::slab_allocator::{SlabAllocator, init_heap, heap_laid_out, HEAP_START, HEAP_SIZE};

verus! {

/// The memory subsystems brought up at boot, owned explicitly and
/// threaded through the rest of the kernel.
pub struct KernelCore {
    pub frame_allocator: BootInfoFrameAllocator,
    pub page_tables: PageTables,
    pub heap: SlabAllocator,
}

/// Initialize the kernel's memory subsystems from the boot memory map:
/// bring up the frame allocator, map the heap's virtual range, and
/// initialize the heap allocator over it.
pub fn init(memory_map: Vec<MemoryRegion>) -> (r: Result<KernelCore, MapError>)
    requires
        memory_map_wf(memory_map@),
        usable_frames(memory_map@).len() <= usize::MAX,
    ensures
        r matches Ok(core) ==> {
            &&& core.frame_allocator.wf()
            &&& core.page_tables.wf()
            &&& core.heap.wf()
            &&& heap_laid_out(core.heap, HEAP_START, HEAP_SIZE)
            &&& forall|j: u64|
                j < HEAP_SIZE / 4096 ==> core.page_tables.spec_translate(#[trigger] page_at(
                    HEAP_START, j)) is Some
            &&& forall|j1: u64, j2: u64|
                #![trigger page_at(HEAP_START, j1), page_at(HEAP_START, j2)]
                j1 < HEAP_SIZE / 4096 && j2 < HEAP_SIZE / 4096 && j1 != j2
                    ==> core.page_tables.spec_translate(page_at(HEAP_START, j1))
                    != core.page_tables.spec_translate(page_at(HEAP_START, j2))
        },
        // with enough usable frames for the heap pages and their
        // intermediate tables, initialization is owed to succeed
        usable_frames(memory_map@).len() >= 4 * (HEAP_SIZE / 4096) ==> r is Ok,
{
    let mut frame_allocator = BootInfoFrameAllocator::init(memory_map);
    let mut page_tables = crate::memory::paging::init();
    let heap = match init_heap(&mut page_tables, &mut frame_allocator) {
        Ok(h) => h,
        Err(e) => {
            return Err(e);
        },
    };
    Ok(KernelCore { frame_allocator, page_tables, heap })
}

} // verus!
