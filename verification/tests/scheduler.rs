use rust_kernel::slab_allocator::{SlabAllocator, HEAP_SIZE, HEAP_START};
use rust_kernel::task::context::{TaskContext, INTERRUPT_FLAG};
use rust_kernel::task::scheduler::{
    block_current_task, current_task_id, init, spawn, unblock_task, yield_task, Scheduler,
    SpawnError, TASK_STACK_SIZE,
};
use rust_kernel::task::{Task, TaskState};

fn initialized_heap() -> SlabAllocator {
    let mut a = SlabAllocator::new();
    a.init(HEAP_START, HEAP_SIZE);
    a
}

fn running_count(s: &Scheduler) -> usize {
    s.tasks.iter().filter(|t| t.state == TaskState::Running).count()
}

#[test]
fn context_init_prepares_entry_stack_and_flags() {
    let mut ctx = TaskContext::default();
    ctx.init(0xDEAD_B000, 0x5000);
    assert_eq!(ctx.rip, 0xDEAD_B000);
    assert_eq!(ctx.rsp, 0x5000);
    assert_eq!(ctx.rbp, 0x5000);
    assert_eq!(ctx.rflags, INTERRUPT_FLAG);
    assert_eq!(ctx.rbx, 0);
}

#[test]
fn task_new_is_ready_with_prepared_context() {
    let t = Task::new(7, "worker", 0x1234, 0x9000, 4096);
    assert_eq!(t.id, 7);
    assert_eq!(t.name, "worker");
    assert_eq!(t.state, TaskState::Ready);
    assert_eq!(t.stack, 0x9000);
    assert_eq!(t.stack_size, 4096);
    assert_eq!(t.context.rip, 0x1234);
    assert_eq!(t.context.rsp, 0x9000);
}

#[test]
fn init_makes_the_idle_task_run() {
    let mut s = Scheduler::new();
    let mut heap = initialized_heap();
    let idle_id = init(&mut s, &mut heap, 0x100).expect("idle spawn expected");
    assert_eq!(idle_id, 1);
    assert_eq!(s.tasks.len(), 1);
    assert_eq!(s.tasks[0].name, "idle");
    assert_eq!(s.tasks[0].state, TaskState::Running);
    assert_eq!(current_task_id(&s), idle_id);
    assert_eq!(running_count(&s), 1);
}

#[test]
fn spawn_fails_without_heap_memory() {
    let mut s = Scheduler::new();
    let mut empty_heap = SlabAllocator::new();
    let r = spawn(&mut s, &mut empty_heap, "worker", 0x100);
    assert_eq!(r, Err(SpawnError::StackAllocationFailed));
    assert_eq!(s.tasks.len(), 0);
}

#[test]
fn spawned_tasks_get_increasing_ids_and_own_stacks() {
    let mut s = Scheduler::new();
    let mut heap = initialized_heap();
    let a = spawn(&mut s, &mut heap, "a", 0x100).unwrap();
    let b = spawn(&mut s, &mut heap, "b", 0x200).unwrap();
    assert_eq!(a, 1);
    assert_eq!(b, 2);
    let (ta, tb) = (&s.tasks[0], &s.tasks[1]);
    assert_eq!(ta.state, TaskState::Ready);
    assert_eq!(tb.state, TaskState::Ready);
    // the two stacks are distinct, non-overlapping heap ranges,
    // aligned as requested from the heap allocator
    let (a_lo, a_hi) = (ta.stack - TASK_STACK_SIZE, ta.stack);
    let (b_lo, b_hi) = (tb.stack - TASK_STACK_SIZE, tb.stack);
    assert!(a_hi <= b_lo || b_hi <= a_lo);
    assert_eq!(a_lo % 16, 0);
    assert_eq!(b_lo % 16, 0);
}

#[test]
fn round_robin_visits_tasks_in_order() {
    let mut s = Scheduler::new();
    let mut heap = initialized_heap();
    let idle = init(&mut s, &mut heap, 0x100).unwrap();
    let a = spawn(&mut s, &mut heap, "a", 0x200).unwrap();
    let b = spawn(&mut s, &mut heap, "b", 0x300).unwrap();
    let mut visit_order = Vec::new();
    for _ in 0..6 {
        let switch = yield_task(&mut s);
        assert!(switch.is_some());
        visit_order.push(current_task_id(&s));
        assert_eq!(running_count(&s), 1);
    }
    assert_eq!(visit_order, vec![a, b, idle, a, b, idle]);
}

#[test]
fn two_yielding_tasks_reach_deterministic_counters() {
    // task A advances its counter by 5 between yields, task B by 3;
    // after nine scheduling steps each has run three slices
    let mut s = Scheduler::new();
    let mut heap = initialized_heap();
    let idle = init(&mut s, &mut heap, 0x100).unwrap();
    let a = spawn(&mut s, &mut heap, "a", 0x200).unwrap();
    let b = spawn(&mut s, &mut heap, "b", 0x300).unwrap();
    let mut counter_a = 0u64;
    let mut counter_b = 0u64;
    for _ in 0..9 {
        assert_eq!(running_count(&s), 1);
        let cur = current_task_id(&s);
        if cur == a {
            counter_a += 5;
        } else if cur == b {
            counter_b += 3;
        } else {
            assert_eq!(cur, idle);
        }
        yield_task(&mut s);
        assert_eq!(running_count(&s), 1);
    }
    // slices: idle, a, b, idle, a, b, idle, a, b
    assert_eq!(counter_a, 15);
    assert_eq!(counter_b, 9);
}

#[test]
fn blocked_task_is_skipped_until_unblocked() {
    let mut s = Scheduler::new();
    let mut heap = initialized_heap();
    let idle = init(&mut s, &mut heap, 0x100).unwrap();
    let a = spawn(&mut s, &mut heap, "a", 0x200).unwrap();
    yield_task(&mut s);
    assert_eq!(current_task_id(&s), a);
    // the running task blocks itself; the idle task takes over
    block_current_task(&mut s);
    assert_eq!(current_task_id(&s), idle);
    assert_eq!(s.tasks[1].state, TaskState::Blocked);
    // while blocked, scheduling keeps returning to idle
    yield_task(&mut s);
    assert_eq!(current_task_id(&s), idle);
    unblock_task(&mut s, a);
    assert_eq!(s.tasks[1].state, TaskState::Ready);
    yield_task(&mut s);
    assert_eq!(current_task_id(&s), a);
}

#[test]
fn schedule_without_ready_tasks_is_a_no_op() {
    let mut s = Scheduler::new();
    assert_eq!(yield_task(&mut s), None);
    let mut heap = initialized_heap();
    let idle = init(&mut s, &mut heap, 0x100).unwrap();
    // only the running idle task exists: nothing is Ready
    assert_eq!(yield_task(&mut s), None);
    assert_eq!(current_task_id(&s), idle);
}

#[test]
fn schedule_reports_the_pair_of_indices_to_switch() {
    let mut s = Scheduler::new();
    let mut heap = initialized_heap();
    init(&mut s, &mut heap, 0x100).unwrap();
    spawn(&mut s, &mut heap, "a", 0x200).unwrap();
    let switch = yield_task(&mut s).expect("a switch decision expected");
    // from the idle task (index 0) to the new task (index 1)
    assert_eq!(switch, (0, 1));
    assert_eq!(s.tasks[0].state, TaskState::Ready);
    assert_eq!(s.tasks[1].state, TaskState::Running);
}

#[test]
fn get_task_by_id_finds_registry_positions() {
    let mut s = Scheduler::new();
    let mut heap = initialized_heap();
    let a = spawn(&mut s, &mut heap, "a", 0x200).unwrap();
    let b = spawn(&mut s, &mut heap, "b", 0x300).unwrap();
    assert_eq!(s.get_task_by_id(a), Some(0));
    assert_eq!(s.get_task_by_id(b), Some(1));
    assert_eq!(s.get_task_by_id(99), None);
}
