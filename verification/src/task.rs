//! Tasks: their status, saved context and per-task system call counts,
//! and the task manager that knows which task runs.

use vstd::prelude::*;

verus! {

/// Number of system call ids whose calls a task counts.
pub const MAX_SYSCALL_NUM: usize = 512;

/// The status of a task.
#[derive(Clone, Copy, PartialEq, Eq, Structural, Debug)]
pub enum TaskStatus {
    /// Not yet set up.
    UnInit,
    /// Ready to run.
    Ready,
    /// Running.
    Running,
    /// Exited.
    Exited,
}

/// The registers a task switch saves: return address, stack pointer and
/// the callee-saved registers.
#[derive(Clone, Copy, Debug)]
pub struct TaskContext {
    pub ra: usize,
    pub sp: usize,
    pub s: [usize; 12],
}

impl TaskContext {
    /// A context with every register zero.
    pub fn zero_init() -> (cx: TaskContext)
        ensures
            cx.ra == 0,
            cx.sp == 0,
            forall|i: int| 0 <= i < 12 ==> cx.s[i] == 0,
    {
        TaskContext { ra: 0, sp: 0, s: [0usize; 12] }
    }
}

/// The mutable part of a task: how often it made each system call.
#[derive(Clone, Copy, Debug)]
pub struct TaskControlBlockInner {
    pub syscall_count: [usize; 512],
}

/// A task.
#[derive(Clone, Copy, Debug)]
pub struct TaskControlBlock {
    /// Where the task is in its life cycle.
    pub task_status: TaskStatus,
    /// Its saved registers.
    pub task_cx: TaskContext,
    /// Its system call counts.
    pub inner: TaskControlBlockInner,
}

impl TaskControlBlock {
    /// A task not yet set up, with a zero context and all counts zero.
    pub fn zero_init() -> (t: TaskControlBlock)
        ensures
            t.task_status == TaskStatus::UnInit,
            t.task_cx.ra == 0,
            t.task_cx.sp == 0,
            forall|i: int| 0 <= i < 12 ==> t.task_cx.s[i] == 0,
            forall|i: int| 0 <= i < 512 ==> t.inner.syscall_count[i] == 0,
    {
        TaskControlBlock {
            task_status: TaskStatus::UnInit,
            task_cx: TaskContext::zero_init(),
            inner: TaskControlBlockInner { syscall_count: [0usize; 512] },
        }
    }
}

/// The tasks and which of them runs.
pub struct TaskManager {
    pub tasks: Vec<TaskControlBlock>,
    pub current_task: usize,
}

impl TaskManager {
    /// The current task exists.
    pub open spec fn has_current(&self) -> bool {
        self.current_task < self.tasks@.len()
    }

    /// How often the current task made system call `id`.
    pub open spec fn count_of(&self, id: int) -> usize {
        self.tasks@[self.current_task as int].inner.syscall_count[id]
    }

    /// Counts one more call of system call `id` by the current task.
    pub fn count_syscall(&mut self, id: usize)
        requires
            old(self).has_current(),
            id < MAX_SYSCALL_NUM,
            old(self).count_of(id as int) < usize::MAX,
        ensures
            final(self).current_task == old(self).current_task,
            final(self).tasks@.len() == old(self).tasks@.len(),
            final(self).count_of(id as int) == old(self).count_of(id as int) + 1,
            forall|k: int|
                0 <= k < 512 && k != id ==> #[trigger] final(self).count_of(k) == old(self).count_of(k),
            forall|t: int|
                0 <= t < old(self).tasks@.len() && t != old(self).current_task
                    ==> #[trigger] final(self).tasks@[t] == old(self).tasks@[t],
            final(self).tasks@[final(self).current_task as int].task_status
                == old(self).tasks@[old(self).current_task as int].task_status,
    {
        let cur = self.current_task;
        let mut task = self.tasks[cur];
        let c = task.inner.syscall_count[id];
        task.inner.syscall_count.set(id, c + 1);
        self.tasks.set(cur, task);
    }

    /// Sets the status of the current task.
    pub fn set_current_status(&mut self, status: TaskStatus)
        requires
            old(self).has_current(),
        ensures
            final(self).current_task == old(self).current_task,
            final(self).tasks@ == old(self).tasks@.update(
                old(self).current_task as int,
                TaskControlBlock { task_status: status, ..old(self).tasks@[old(self).current_task as int] },
            ),
    {
        let cur = self.current_task;
        let mut task = self.tasks[cur];
        task.task_status = status;
        self.tasks.set(cur, task);
    }
}

/// The id of the running task.
pub fn current_task_id(tm: &TaskManager) -> (id: usize)
    ensures
        id == tm.current_task,
{
    tm.current_task
}

} // verus!
