//! The saved CPU register context of a task.
//!
//! The register-level switch itself is architecture code that lives
//! outside this crate; here the context is plain data with an exact
//! contract for how a fresh task's context is prepared.

use vstd::prelude::*;

verus! {

/// The interrupt-enable bit of the flags register.
pub const INTERRUPT_FLAG: u64 = 0x200;

/// Callee-preserved registers of the System V AMD64 ABI, plus the
/// instruction pointer, flags and stack pointer of the suspended task.
#[derive(Clone, Copy, Debug, PartialEq, Eq, Structural)]
pub struct TaskContext {
    pub r15: u64,
    pub r14: u64,
    pub r13: u64,
    pub r12: u64,
    pub rbx: u64,
    pub rbp: u64,
    /// Instruction pointer: where the task resumes.
    pub rip: u64,
    /// CPU flags restored on resume.
    pub rflags: u64,
    /// Stack pointer active on resume.
    pub rsp: u64,
}

impl Default for TaskContext {
    fn default() -> (r: Self)
        ensures
            r == (TaskContext {
                r15: 0,
                r14: 0,
                r13: 0,
                r12: 0,
                rbx: 0,
                rbp: 0,
                rip: 0,
                rflags: 0,
                rsp: 0,
            }),
    {
        TaskContext {
            r15: 0,
            r14: 0,
            r13: 0,
            r12: 0,
            rbx: 0,
            rbp: 0,
            rip: 0,
            rflags: 0,
            rsp: 0,
        }
    }
}

impl TaskContext {
    /// Prepare the context so that resuming it starts executing at
    /// `entry_point` on the given stack, with interrupts enabled.
    pub fn init(&mut self, entry_point: u64, stack_top: u64)
        ensures
            final(self).rip == entry_point,
            final(self).rsp == stack_top,
            final(self).rbp == stack_top,
            final(self).rflags == INTERRUPT_FLAG,
            final(self).r15 == old(self).r15,
            final(self).r14 == old(self).r14,
            final(self).r13 == old(self).r13,
            final(self).r12 == old(self).r12,
            final(self).rbx == old(self).rbx,
    {
        self.rip = entry_point;
        self.rsp = stack_top;
        self.rflags = INTERRUPT_FLAG;
        self.rbp = stack_top;
    }
}

} // verus!
