//! The round-robin cooperative scheduler.
//!
//! The registry scans for the next Ready task starting just after the
//! current cursor and wrapping around. Scheduling itself cannot fail:
//! when no task is Ready the call is a no-op. The register-level switch
//! is performed outside this crate; `schedule` returns which pair of
//! task indices to switch between, with all bookkeeping already
//! committed.

use vstd::prelude::*;
use crate::task::{Task, TaskState};
use crate::task::context::INTERRUPT_FLAG;
use crate::slab_allocator::{SlabAllocator, heap_alloc_rel};

verus! {

/// Stack bytes given to each spawned task.
pub const TASK_STACK_SIZE: u64 = 4096;

/// Alignment of a task stack.
pub const TASK_STACK_ALIGN: u64 = 16;

/// A task with only its state changed.
pub open spec fn with_state(t: Task, st: TaskState) -> Task {
    Task { state: st, ..t }
}

/// The first Ready task at or after scan position `off` (positions
/// count from `start`, wrapping around the registry).
pub open spec fn next_ready_from(tasks: Seq<Task>, start: int, off: int) -> Option<int>
    decreases tasks.len() - off,
{
    if tasks.len() == 0 || off < 0 || off >= tasks.len() {
        None
    } else {
        let idx = (start + off) % (tasks.len() as int);
        if tasks[idx].state is Ready {
            Some(idx)
        } else {
            next_ready_from(tasks, start, off + 1)
        }
    }
}

/// The registry index of the next Ready task, scanning from just after
/// the cursor and wrapping around.
pub open spec fn next_ready(tasks: Seq<Task>, cursor: Option<usize>) -> Option<int> {
    if tasks.len() == 0 {
        None
    } else {
        let start = match cursor {
            Some(c) => (c + 1) as int % (tasks.len() as int),
            None => 0int,
        };
        next_ready_from(tasks, start, 0)
    }
}

/// One scheduling step: the registry, cursor and current-task id after
/// the step, and the pair of task indices to context-switch between.
pub open spec fn spec_schedule(tasks: Seq<Task>, cursor: Option<usize>, cur_id: usize) -> (
    Seq<Task>, Option<usize>, usize, Option<(usize, usize)>) {
    match next_ready(tasks, cursor) {
        None => (tasks, cursor, cur_id, None),
        Some(n) => {
            let s1 = tasks.update(n, with_state(tasks[n], TaskState::Running));
            let s2 = if cursor matches Some(c) && c != n && tasks[c as int].state is Running {
                s1.update(cursor.unwrap() as int, with_state(tasks[cursor.unwrap() as int],
                    TaskState::Ready))
            } else {
                s1
            };
            let switch = match cursor {
                Some(c) => Some((c, n as usize)),
                None => None,
            };
            (s2, Some(n as usize), tasks[n].id, switch)
        },
    }
}

/// The first registry position holding the task with this id.
pub open spec fn task_index_of(tasks: Seq<Task>, id: usize) -> Option<int>
    decreases tasks.len(),
{
    if tasks.len() == 0 {
        None
    } else if tasks[0].id == id {
        Some(0int)
    } else {
        match task_index_of(tasks.drop_first(), id) {
            Some(i) => Some(i + 1),
            None => None,
        }
    }
}

proof fn lemma_task_index_of_prefix(tasks: Seq<Task>, id: usize, i: int)
    requires
        0 <= i <= tasks.len(),
        forall|j: int| 0 <= j < i ==> (#[trigger] tasks[j]).id != id,
    ensures
        task_index_of(tasks, id) == match task_index_of(tasks.skip(i), id) {
            Some(k) => Some(k + i),
            None => None::<int>,
        },
    decreases i,
{
    if i == 0 {
        assert(tasks.skip(0) =~= tasks);
    } else {
        let rest = tasks.drop_first();
        assert forall|j: int| 0 <= j < i - 1 implies (#[trigger] rest[j]).id != id by {
            assert(rest[j] == tasks[j + 1]);
        }
        lemma_task_index_of_prefix(rest, id, i - 1);
        assert(rest.skip(i - 1) =~= tasks.skip(i));
    }
}

proof fn lemma_task_index_of_bounds(tasks: Seq<Task>, id: usize)
    ensures
        match task_index_of(tasks, id) {
            Some(i) => 0 <= i < tasks.len() && tasks[i].id == id,
            None => forall|j: int| 0 <= j < tasks.len() ==> (#[trigger] tasks[j]).id != id,
        },
    decreases tasks.len(),
{
    if tasks.len() > 0 && tasks[0].id != id {
        lemma_task_index_of_bounds(tasks.drop_first(), id);
        let rest = tasks.drop_first();
        match task_index_of(rest, id) {
            Some(_) => {},
            None => {
                assert forall|j: int| 0 <= j < tasks.len() implies (#[trigger] tasks[j]).id
                    != id by {
                    if j > 0 {
                        assert(rest[j - 1] == tasks[j]);
                    }
                }
            },
        }
    }
}

/// Advancing a wrapping scan position by one.
proof fn lemma_wrap_step(start: int, offset: int, count: int, index: int)
    requires
        count > 0,
        0 <= start < count,
        0 <= offset,
        0 <= index < count,
        index == (start + offset) % count,
    ensures
        (start + offset + 1) % count == if index + 1 == count {
            0int
        } else {
            index + 1
        },
{
    vstd::arithmetic::div_mod::lemma_add_mod_noop(start + offset, 1, count);
    if count == 1 {
        vstd::arithmetic::div_mod::lemma_mod_self_0(1);
        vstd::arithmetic::div_mod::lemma_small_mod(0, 1);
    } else {
        vstd::arithmetic::div_mod::lemma_small_mod(1, count as nat);
        if index + 1 == count {
            vstd::arithmetic::div_mod::lemma_mod_self_0(count);
        } else {
            vstd::arithmetic::div_mod::lemma_small_mod((index + 1) as nat, count as nat);
        }
    }
}

/// The registry of all tasks plus the cursor of the running one.
pub struct Scheduler {
    pub tasks: Vec<Task>,
    pub current_task_index: Option<usize>,
    /// Id of the task the processor is executing; 0 when none has been
    /// selected yet.
    pub current_task_id: usize,
    /// Next task id to hand out; ids grow monotonically from 1.
    pub next_id: usize,
}

impl Scheduler {
    pub open spec fn wf(&self) -> bool {
        &&& match self.current_task_index {
            Some(i) => i < self.tasks@.len() && self.current_task_id
                == self.tasks@[i as int].id,
            None => self.current_task_id == 0,
        }
        &&& self.next_id >= 1
        &&& forall|i: int|
            0 <= i < self.tasks@.len() ==> 1 <= (#[trigger] self.tasks@[i]).id < self.next_id
        &&& forall|i: int, j: int|
            0 <= i < j < self.tasks@.len() ==> self.tasks@[i].id != self.tasks@[j].id
        &&& forall|i: int|
            0 <= i < self.tasks@.len() && (#[trigger] self.tasks@[i]).state is Running
                ==> (self.current_task_index matches Some(c) && c as int == i)
    }

    /// An empty registry: no tasks, no current task.
    pub fn new() -> (r: Self)
        ensures
            r.wf(),
            r.tasks@.len() == 0,
            r.current_task_index is None,
            r.current_task_id == 0,
            r.next_id == 1,
    {
        Scheduler { tasks: Vec::new(), current_task_index: None, current_task_id: 0, next_id: 1 }
    }

    /// Append a task to the registry. The task must carry a fresh id
    /// below the scheduler's id counter and must not claim to run.
    pub fn add_task(&mut self, task: Task)
        requires
            old(self).wf(),
            1 <= task.id < old(self).next_id,
            !(task.state is Running),
            forall|j: int| 0 <= j < old(self).tasks@.len() ==> (#[trigger] old(
                self).tasks@[j]).id != task.id,
        ensures
            final(self).wf(),
            final(self).tasks@ == old(self).tasks@.push(task),
            final(self).current_task_index == old(self).current_task_index,
            final(self).current_task_id == old(self).current_task_id,
            final(self).next_id == old(self).next_id,
    {
        self.tasks.push(task);
    }

    /// The task under the cursor, if one has been selected.
    pub fn current_task(&self) -> (r: Option<&Task>)
        requires
            self.wf(),
        ensures
            r is Some == self.current_task_index is Some,
            r matches Some(t) ==> self.current_task_index matches Some(i) && *t
                == self.tasks@[i as int],
    {
        match self.current_task_index {
            Some(index) => Some(&self.tasks[index]),
            None => None,
        }
    }

    /// Move the cursor to the next Ready task, wrapping around, and
    /// return its registry index; a no-op when no task is Ready. Used
    /// during start-up, before any task has been marked Running.
    pub fn next_task(&mut self) -> (r: Option<usize>)
        requires
            old(self).wf(),
            forall|i: int|
                0 <= i < old(self).tasks@.len() ==> !((#[trigger] old(
                    self).tasks@[i]).state is Running),
        ensures
            final(self).wf(),
            final(self).tasks@ == old(self).tasks@,
            final(self).next_id == old(self).next_id,
            r == match next_ready(old(self).tasks@, old(self).current_task_index) {
                Some(n) => Some(n as usize),
                None => None::<usize>,
            },
            r matches Some(n) ==> final(self).current_task_index == Some(n)
                && final(self).current_task_id == old(self).tasks@[n as int].id,
            r is None ==> final(self).current_task_index == old(self).current_task_index
                && final(self).current_task_id == old(self).current_task_id,
    {
        let task_count = self.tasks.len();
        if task_count == 0 {
            return None;
        }
        let start_index = match self.current_task_index {
            Some(index) => {
                if index + 1 == task_count {
                    0
                } else {
                    index + 1
                }
            },
            None => 0,
        };
        proof {
            match old(self).current_task_index {
                Some(c) => {
                    if c + 1 == task_count {
                        vstd::arithmetic::div_mod::lemma_mod_self_0(task_count as int);
                    } else {
                        vstd::arithmetic::div_mod::lemma_small_mod((c + 1) as nat,
                            task_count as nat);
                    }
                },
                None => {},
            }
            assert(start_index == match old(self).current_task_index {
                Some(c) => (c + 1) as int % (old(self).tasks@.len() as int),
                None => 0int,
            });
            vstd::arithmetic::div_mod::lemma_small_mod(start_index as nat, task_count as nat);
        }
        let ghost tasks0 = self.tasks@;
        let mut index = start_index;
        let mut offset: usize = 0;
        while offset < task_count
            invariant
                self == old(self),
                old(self).wf(),
                forall|i: int|
                    0 <= i < tasks0.len() ==> !((#[trigger] tasks0[i]).state is Running),
                tasks0 == self.tasks@,
                task_count == tasks0.len(),
                task_count > 0,
                0 <= offset <= task_count,
                0 <= index < task_count,
                0 <= start_index < task_count,
                start_index as int == match old(self).current_task_index {
                    Some(c) => (c + 1) as int % (tasks0.len() as int),
                    None => 0int,
                },
                index == (start_index + offset) % (task_count as int),
                next_ready_from(tasks0, start_index as int, 0) == next_ready_from(tasks0,
                    start_index as int, offset as int),
            decreases task_count - offset,
        {
            if matches!(self.tasks[index].state, TaskState::Ready) {
                self.current_task_index = Some(index);
                self.current_task_id = self.tasks[index].id;
                proof {
                    assert(next_ready_from(tasks0, start_index as int, offset as int)
                        == Some(index as int));
                }
                return Some(index);
            }
            proof {
                lemma_wrap_step(start_index as int, offset as int, task_count as int,
                    index as int);
            }
            index = if index + 1 == task_count {
                0
            } else {
                index + 1
            };
            offset = offset + 1;
        }
        None
    }

    /// The first registry index of the task with this id.
    pub fn get_task_by_id(&self, id: usize) -> (r: Option<usize>)
        requires
            self.wf(),
        ensures
            r is Some == task_index_of(self.tasks@, id) is Some,
            r matches Some(u) ==> task_index_of(self.tasks@, id) == Some(u as int),
    {
        let ghost tasks0 = self.tasks@;
        let mut i: usize = 0;
        while i < self.tasks.len()
            invariant
                tasks0 == self.tasks@,
                0 <= i <= tasks0.len(),
                forall|j: int| 0 <= j < i ==> (#[trigger] tasks0[j]).id != id,
            decreases tasks0.len() - i,
        {
            if self.tasks[i].id == id {
                proof {
                    lemma_task_index_of_prefix(tasks0, id, i as int);
                    assert(tasks0.skip(i as int)[0] == tasks0[i as int]);
                }
                return Some(i);
            }
            i = i + 1;
        }
        proof {
            lemma_task_index_of_prefix(tasks0, id, self.tasks@.len() as int);
            assert(tasks0.skip(tasks0.len() as int) =~= Seq::<Task>::empty());
        }
        None
    }

    /// Set the state of the task with this id; no task may be forced
    /// into Running this way — Running is entered only by scheduling.
    pub fn set_task_state(&mut self, id: usize, state: TaskState)
        requires
            old(self).wf(),
            !(state is Running),
        ensures
            final(self).wf(),
            final(self).current_task_index == old(self).current_task_index,
            final(self).current_task_id == old(self).current_task_id,
            final(self).next_id == old(self).next_id,
            match task_index_of(old(self).tasks@, id) {
                Some(i) => final(self).tasks@ == old(self).tasks@.update(i, with_state(
                    old(self).tasks@[i], state)),
                None => final(self).tasks@ == old(self).tasks@,
            },
    {
        proof {
            lemma_task_index_of_bounds(self.tasks@, id);
        }
        let idx = self.get_task_by_id(id);
        match idx {
            Some(i) => {
                self.tasks[i].state = state;
                proof {
                    assert(self.tasks@ =~= old(self).tasks@.update(i as int, with_state(
                        old(self).tasks@[i as int], state)));
                }
            },
            None => {},
        }
    }

    /// Pick the next Ready task, commit all bookkeeping for the
    /// transition, and return which pair of registry indices to
    /// context-switch between; `None` when no switch is to happen.
    pub fn schedule(&mut self) -> (r: Option<(usize, usize)>)
        requires
            old(self).wf(),
        ensures
            final(self).wf(),
            final(self).next_id == old(self).next_id,
            (final(self).tasks@, final(self).current_task_index, final(self).current_task_id,
                r) == spec_schedule(old(self).tasks@, old(self).current_task_index,
                old(self).current_task_id),
    {
        let task_count = self.tasks.len();
        if task_count == 0 {
            return None;
        }
        let start_index = match self.current_task_index {
            Some(index) => {
                if index + 1 == task_count {
                    0
                } else {
                    index + 1
                }
            },
            None => 0,
        };
        proof {
            match old(self).current_task_index {
                Some(c) => {
                    if c + 1 == task_count {
                        vstd::arithmetic::div_mod::lemma_mod_self_0(task_count as int);
                    } else {
                        vstd::arithmetic::div_mod::lemma_small_mod((c + 1) as nat,
                            task_count as nat);
                    }
                },
                None => {},
            }
            assert(start_index == match old(self).current_task_index {
                Some(c) => (c + 1) as int % (old(self).tasks@.len() as int),
                None => 0int,
            });
            vstd::arithmetic::div_mod::lemma_small_mod(start_index as nat, task_count as nat);
        }
        let ghost tasks0 = self.tasks@;
        let mut next_task_index: Option<usize> = None;
        let mut index = start_index;
        let mut offset: usize = 0;
        while offset < task_count && next_task_index.is_none()
            invariant
                self == old(self),
                old(self).wf(),
                tasks0 == self.tasks@,
                task_count == tasks0.len(),
                task_count > 0,
                0 <= offset <= task_count,
                0 <= index < task_count,
                0 <= start_index < task_count,
                start_index as int == match old(self).current_task_index {
                    Some(c) => (c + 1) as int % (tasks0.len() as int),
                    None => 0int,
                },
                index == (start_index + offset) % (task_count as int),
                next_task_index matches Some(n) ==> next_ready_from(tasks0,
                    start_index as int, 0) == Some(n as int) && n < task_count,
                next_task_index is None ==> next_ready_from(tasks0, start_index as int, 0)
                    == next_ready_from(tasks0, start_index as int, offset as int),
            decreases task_count - offset, (if next_task_index.is_none() { 1int } else { 0int }),
        {
            if matches!(self.tasks[index].state, TaskState::Ready) {
                next_task_index = Some(index);
                proof {
                    assert(next_ready_from(tasks0, start_index as int, offset as int)
                        == Some(index as int));
                }
            } else {
                proof {
                    lemma_wrap_step(start_index as int, offset as int, task_count as int,
                        index as int);
                }
                index = if index + 1 == task_count {
                    0
                } else {
                    index + 1
                };
                offset = offset + 1;
            }
        }
        let next_index = match next_task_index {
            Some(index) => index,
            None => {
                proof {
                    assert(next_ready_from(tasks0, start_index as int,
                        task_count as int) is None);
                }
                return None;
            },
        };
        // commit the transition before any context switch happens
        let was_running = match self.current_task_index {
            Some(c) => matches!(self.tasks[c].state, TaskState::Running),
            None => false,
        };
        proof {
            assert(next_ready(tasks0, old(self).current_task_index)
                == Some(next_index as int));
        }
        self.tasks[next_index].state = TaskState::Running;
        proof {
            assert(self.tasks@ =~= tasks0.update(next_index as int, with_state(
                tasks0[next_index as int], TaskState::Running)));
        }
        let next_task_id = self.tasks[next_index].id;
        let ghost s1 = self.tasks@;
        let r = match self.current_task_index {
            Some(current_index) => {
                if was_running && current_index != next_index {
                    self.tasks[current_index].state = TaskState::Ready;
                    proof {
                        assert(self.tasks@ =~= s1.update(current_index as int, with_state(
                            tasks0[current_index as int], TaskState::Ready)));
                    }
                }
                Some((current_index, next_index))
            },
            None => None,
        };
        self.current_task_index = Some(next_index);
        self.current_task_id = next_task_id;
        proof {
            let spec_r = spec_schedule(tasks0, old(self).current_task_index,
                old(self).current_task_id);
            assert(self.tasks@ =~= spec_r.0);
        }
        r
    }
}

/// At most one task is Running at any instant: every Running task sits
/// at the cursor, so two Running tasks would share one registry slot.
pub proof fn lemma_at_most_one_running(s: Scheduler)
    requires
        s.wf(),
    ensures
        forall|i: int, j: int|
            0 <= i < s.tasks@.len() && 0 <= j < s.tasks@.len() && (#[trigger] s.tasks@[i]).state
                is Running && (#[trigger] s.tasks@[j]).state is Running ==> i == j,
{
    assert forall|i: int, j: int|
        0 <= i < s.tasks@.len() && 0 <= j < s.tasks@.len() && (#[trigger] s.tasks@[i]).state
            is Running && (#[trigger] s.tasks@[j]).state is Running implies i == j by {
        let c = s.current_task_index.unwrap();
        assert(c as int == i && c as int == j);
    }
}

/// Why a task could not be spawned.
#[derive(Clone, Copy, Debug, PartialEq, Eq, Structural)]
pub enum SpawnError {
    /// The heap could not supply memory for the task's stack.
    StackAllocationFailed,
}

/// Spawn a task: allocate its stack from the heap, assign the next id,
/// and append it to the registry in Ready state.
pub fn spawn(scheduler: &mut Scheduler, heap: &mut SlabAllocator, name: &'static str,
    entry_point: u64) -> (r: Result<usize, SpawnError>)
    requires
        old(scheduler).wf(),
        old(scheduler).next_id < usize::MAX,
        old(heap).wf(),
    ensures
        final(scheduler).wf(),
        final(heap).wf(),
        r matches Ok(id) ==> ({
            let t = final(scheduler).tasks@.last();
            &&& final(scheduler).tasks@ == old(scheduler).tasks@.push(t)
            &&& id == old(scheduler).next_id
            &&& t.id == id
            &&& final(scheduler).next_id == old(scheduler).next_id + 1
            &&& t.name == name
            &&& t.state is Ready
            &&& t.stack_size == TASK_STACK_SIZE
            &&& t.context.rip == entry_point
            &&& t.context.rsp == t.stack
            &&& t.context.rbp == t.stack
            &&& t.context.rflags == INTERRUPT_FLAG
            &&& heap_alloc_rel(*old(heap), *final(heap), TASK_STACK_SIZE, TASK_STACK_ALIGN,
                Some((t.stack - TASK_STACK_SIZE) as u64))
            &&& final(scheduler).current_task_index == old(scheduler).current_task_index
            &&& final(scheduler).current_task_id == old(scheduler).current_task_id
        }),
        r is Err ==> *final(scheduler) == *old(scheduler) && heap_alloc_rel(*old(heap),
            *final(heap), TASK_STACK_SIZE, TASK_STACK_ALIGN, None::<u64>),
{
    proof {
        assert(16u64 > 0 && (16u64 & ((16u64 - 1) as u64)) == 0) by (bit_vector);
    }
    let stack_bottom = match heap.allocate(TASK_STACK_SIZE, TASK_STACK_ALIGN) {
        Some(addr) => addr,
        None => {
            return Err(SpawnError::StackAllocationFailed);
        },
    };
    let stack_top = stack_bottom + TASK_STACK_SIZE;
    let id = scheduler.next_id;
    scheduler.next_id = scheduler.next_id + 1;
    let task = Task::new(id, name, entry_point, stack_top, TASK_STACK_SIZE);
    scheduler.add_task(task);
    Ok(id)
}

/// Id of the task the processor is executing; 0 when none is selected.
pub fn current_task_id(scheduler: &Scheduler) -> (r: usize)
    ensures
        r == scheduler.current_task_id,
{
    scheduler.current_task_id
}

/// Voluntarily give up the processor: one round-robin scheduling step.
/// Returns the pair of registry indices whose contexts are to be
/// switched, with all bookkeeping already committed.
pub fn yield_task(scheduler: &mut Scheduler) -> (r: Option<(usize, usize)>)
    requires
        old(scheduler).wf(),
    ensures
        final(scheduler).wf(),
        final(scheduler).next_id == old(scheduler).next_id,
        (final(scheduler).tasks@, final(scheduler).current_task_index,
            final(scheduler).current_task_id, r) == spec_schedule(old(scheduler).tasks@,
            old(scheduler).current_task_index, old(scheduler).current_task_id),
{
    scheduler.schedule()
}

/// Mark the current task Blocked, then schedule the next Ready task.
pub fn block_current_task(scheduler: &mut Scheduler) -> (r: Option<(usize, usize)>)
    requires
        old(scheduler).wf(),
    ensures
        final(scheduler).wf(),
        final(scheduler).next_id == old(scheduler).next_id,
        ({
            let blocked = match task_index_of(old(scheduler).tasks@,
                old(scheduler).current_task_id) {
                Some(i) => old(scheduler).tasks@.update(i, with_state(
                    old(scheduler).tasks@[i], TaskState::Blocked)),
                None => old(scheduler).tasks@,
            };
            (final(scheduler).tasks@, final(scheduler).current_task_index,
                final(scheduler).current_task_id, r) == spec_schedule(blocked,
                old(scheduler).current_task_index, old(scheduler).current_task_id)
        }),
{
    let current_id = current_task_id(scheduler);
    scheduler.set_task_state(current_id, TaskState::Blocked);
    scheduler.schedule()
}

/// Make the task with this id Ready again after an explicit block.
pub fn unblock_task(scheduler: &mut Scheduler, id: usize)
    requires
        old(scheduler).wf(),
    ensures
        final(scheduler).wf(),
        final(scheduler).current_task_index == old(scheduler).current_task_index,
        final(scheduler).current_task_id == old(scheduler).current_task_id,
        final(scheduler).next_id == old(scheduler).next_id,
        match task_index_of(old(scheduler).tasks@, id) {
            Some(i) => final(scheduler).tasks@ == old(scheduler).tasks@.update(i, with_state(
                old(scheduler).tasks@[i], TaskState::Ready)),
            None => final(scheduler).tasks@ == old(scheduler).tasks@,
        },
{
    scheduler.set_task_state(id, TaskState::Ready);
}

/// Boot-time scheduler start: spawn the permanent idle task into an
/// empty registry and make it the running task.
pub fn init(scheduler: &mut Scheduler, heap: &mut SlabAllocator, idle_entry_point: u64) -> (r:
    Result<usize, SpawnError>)
    requires
        old(scheduler).wf(),
        old(scheduler).tasks@.len() == 0,
        old(scheduler).next_id < usize::MAX,
        old(heap).wf(),
    ensures
        final(scheduler).wf(),
        final(heap).wf(),
        r matches Ok(id) ==> ({
            let t = final(scheduler).tasks@[0];
            &&& final(scheduler).tasks@.len() == 1
            &&& id == old(scheduler).next_id
            &&& t.id == id
            &&& t.name@ == "idle"@
            &&& t.state is Running
            &&& t.context.rip == idle_entry_point
            &&& final(scheduler).current_task_index == Some(0usize)
            &&& final(scheduler).current_task_id == id
        }),
        r is Err ==> *final(scheduler) == *old(scheduler) && heap_alloc_rel(*old(heap),
            *final(heap), TASK_STACK_SIZE, TASK_STACK_ALIGN, None::<u64>),
{
    let id = match spawn(scheduler, heap, "idle", idle_entry_point) {
        Ok(id) => id,
        Err(e) => {
            return Err(e);
        },
    };
    let picked = scheduler.next_task();
    match picked {
        Some(i) => {
            scheduler.tasks[i].state = TaskState::Running;
            proof {
                assert(scheduler.tasks@ =~= old(scheduler).tasks@.push(
                    final(scheduler).tasks@[0]).update(0, final(scheduler).tasks@[0]));
            }
        },
        None => {
            proof {
                let tasks1 = scheduler.tasks@;
                vstd::arithmetic::div_mod::lemma_small_mod(0, 1);
                assert(next_ready_from(tasks1, 0, 0) == Some(0int));
                assert(false);
            }
        },
    }
    Ok(id)
}

} // verus!
