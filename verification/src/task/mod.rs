//! Cooperative multitasking: tasks, their saved contexts, and the
//! round-robin scheduler.

pub mod context;
pub mod scheduler;

use vstd::prelude::*;
use context::TaskContext;
use context::INTERRUPT_FLAG;

verus! {

/// Life-cycle state of a task.
#[derive(Clone, Copy, Debug, PartialEq, Eq, Structural)]
pub enum TaskState {
    /// Eligible to run.
    Ready,
    /// Currently executing; at most one task system-wide.
    Running,
    /// Waiting for an explicit unblock.
    Blocked,
    /// Finished; its resources are not reclaimed automatically.
    Terminated,
}

/// A task control block: identity, state, stack range and saved context.
pub struct Task {
    pub id: usize,
    pub name: &'static str,
    pub state: TaskState,
    /// Top of the task's stack (highest address of the range).
    pub stack: u64,
    pub stack_size: u64,
    pub context: TaskContext,
}

impl Task {
    /// A fresh Ready task whose context resumes at `entry_point` with
    /// the stack pointer at the top of its stack.
    pub fn new(id: usize, name: &'static str, entry_point: u64, stack_top: u64,
        stack_size: u64) -> (r: Task)
        ensures
            r.id == id,
            r.name == name,
            r.state == TaskState::Ready,
            r.stack == stack_top,
            r.stack_size == stack_size,
            r.context.rip == entry_point,
            r.context.rsp == stack_top,
            r.context.rbp == stack_top,
            r.context.rflags == INTERRUPT_FLAG,
    {
        let mut task = Task {
            id,
            name,
            state: TaskState::Ready,
            stack: stack_top,
            stack_size,
            context: TaskContext::default(),
        };
        task.context.init(entry_point, stack_top);
        task
    }
}

} // verus!
