//! Task control blocks and their lifecycle.
use vstd::prelude::*;
use crate::mm::AddressSpace;

verus! {

/// Number of system call slots counted per task.
pub const MAX_SYSCALL_NUM: usize = 500;

/// The constant divided by a task's priority to give its stride step.
pub const BIG_STRIDE: u64 = 0x10_0000;

/// Half of the stride counter's range: two strides compare by the signed
/// distance between them, which must stay below this bound.
pub const HALF_RANGE: u64 = 0x8000_0000_0000_0000;

/// The status of a task in its lifecycle.
#[derive(Clone, Copy, Debug, PartialEq, Eq, Structural)]
pub enum TaskStatus {
    UnInit,
    Ready,
    Running,
    Exited,
}

/// The transitions a task may take: UnInit to Ready, Ready to Running, and
/// Running to Ready (yield) or to Exited (exit).
pub open spec fn valid_transition(from: TaskStatus, to: TaskStatus) -> bool {
    match (from, to) {
        (TaskStatus::UnInit, TaskStatus::Ready) => true,
        (TaskStatus::Ready, TaskStatus::Running) => true,
        (TaskStatus::Running, TaskStatus::Ready) => true,
        (TaskStatus::Running, TaskStatus::Exited) => true,
        _ => false,
    }
}

/// Saved registers used to switch execution between tasks.
#[derive(Clone, Copy, Debug, PartialEq, Eq, Structural)]
pub struct TaskContext {
    /// return address
    pub ra: usize,
    /// kernel stack pointer
    pub sp: usize,
}

/// The stride step of a task with the given priority.
pub open spec fn step_of(priority: u64) -> u64
    recommends
        priority >= 1,
{
    (BIG_STRIDE / priority) as u64
}

/// A stride advanced by `step`, wrapping at the counter's width.
pub open spec fn advance(stride: u64, step: u64) -> u64 {
    ((stride + step) % 0x1_0000_0000_0000_0000int) as u64
}

/// A stride after `n` advances by `step`.
pub open spec fn advance_n(stride: u64, step: u64, n: nat) -> u64
    decreases n,
{
    if n == 0 {
        stride
    } else {
        advance(advance_n(stride, step, (n - 1) as nat), step)
    }
}

/// A counter incremented by one, held at its maximum.
pub open spec fn bump(c: u32) -> u32 {
    if c < u32::MAX {
        (c + 1) as u32
    } else {
        c
    }
}

/// The syscall counters after one call with number `id`: slots outside the
/// tracked range are ignored.
pub open spec fn counted(times: Seq<u32>, id: usize) -> Seq<u32> {
    if id < times.len() {
        times.update(id as int, bump(times[id as int]))
    } else {
        times
    }
}

/// The task control block of a task.
pub struct TaskControlBlock {
    /// The task status in its lifecycle
    pub task_status: TaskStatus,
    /// The saved context
    pub task_cx: TaskContext,
    /// Number of calls of each system call made by the task
    pub syscall_times: Vec<u32>,
    /// Time in milliseconds at which the task first ran
    pub start_time: Option<usize>,
    /// Current stride of the task
    pub stride: u64,
    /// Scheduling priority; the stride advances by `BIG_STRIDE / priority`
    pub priority: u64,
    /// The task's user address space
    pub memory_set: AddressSpace,
    /// Lowest address of the task's heap
    pub heap_bottom: usize,
    /// Current end of the task's heap (the program break)
    pub program_brk: usize,
}

impl TaskControlBlock {
    pub open spec fn wf(&self) -> bool {
        &&& self.syscall_times@.len() == MAX_SYSCALL_NUM
        &&& self.priority >= 1
        &&& self.memory_set.wf()
        &&& self.heap_bottom <= self.program_brk
    }

    /// A task that has not run yet, with all counters at zero and an empty
    /// heap at `heap_bottom`.
    pub fn new(task_cx: TaskContext, priority: u64, memory_set: AddressSpace, heap_bottom: usize) -> (r: Self)
        requires
            priority >= 1,
            memory_set.wf(),
        ensures
            r.wf(),
            r.task_status == TaskStatus::UnInit,
            r.task_cx == task_cx,
            r.syscall_times@ == Seq::new(MAX_SYSCALL_NUM as nat, |i: int| 0u32),
            r.start_time.is_none(),
            r.stride == 0,
            r.priority == priority,
            r.memory_set == memory_set,
            r.heap_bottom == heap_bottom,
            r.program_brk == heap_bottom,
    {
        let mut syscall_times: Vec<u32> = Vec::new();
        let mut i: usize = 0;
        while i < MAX_SYSCALL_NUM
            invariant
                i <= MAX_SYSCALL_NUM,
                syscall_times@ == Seq::new(i as nat, |k: int| 0u32),
            decreases MAX_SYSCALL_NUM - i,
        {
            syscall_times.push(0);
            i = i + 1;
            assert(syscall_times@ =~= Seq::new(i as nat, |k: int| 0u32));
        }
        TaskControlBlock {
            task_status: TaskStatus::UnInit,
            task_cx,
            syscall_times,
            start_time: None,
            stride: 0,
            priority,
            memory_set,
            heap_bottom,
            program_brk: heap_bottom,
        }
    }

    /// How far the stride moves each time the task runs: `BIG_STRIDE / priority`.
    pub fn pass(&self) -> (r: u64)
        requires
            self.wf(),
        ensures
            r == step_of(self.priority),
    {
        BIG_STRIDE / self.priority
    }

    /// Counts one call of system call `id`; an id outside the tracked range
    /// is ignored.
    pub fn increase_syscall_count(&mut self, id: usize)
        requires
            old(self).wf(),
        ensures
            final(self).wf(),
            final(self).syscall_times@ == counted(old(self).syscall_times@, id),
            final(self).task_status == old(self).task_status,
            final(self).task_cx == old(self).task_cx,
            final(self).start_time == old(self).start_time,
            final(self).stride == old(self).stride,
            final(self).priority == old(self).priority,
            final(self).memory_set == old(self).memory_set,
            final(self).heap_bottom == old(self).heap_bottom,
            final(self).program_brk == old(self).program_brk,
    {
        if id < self.syscall_times.len() {
            let c = self.syscall_times[id];
            self.syscall_times.set(id, c.saturating_add(1));
        }
    }

    /// Advances the stride by the task's step, wrapping on overflow.
    pub fn update_stride(&mut self)
        requires
            old(self).wf(),
        ensures
            final(self).wf(),
            final(self).stride == advance(old(self).stride, step_of(old(self).priority)),
            final(self).task_status == old(self).task_status,
            final(self).task_cx == old(self).task_cx,
            final(self).syscall_times == old(self).syscall_times,
            final(self).start_time == old(self).start_time,
            final(self).priority == old(self).priority,
            final(self).memory_set == old(self).memory_set,
            final(self).heap_bottom == old(self).heap_bottom,
            final(self).program_brk == old(self).program_brk,
    {
        let s = self.pass();
        self.stride = self.stride.wrapping_add(s);
    }

    /// UnInit to Ready: the task is loaded and may be scheduled.
    pub fn make_ready(&mut self)
        requires
            old(self).task_status == TaskStatus::UnInit,
        ensures
            final(self).task_status == TaskStatus::Ready,
            final(self).task_cx == old(self).task_cx,
            final(self).syscall_times == old(self).syscall_times,
            final(self).start_time == old(self).start_time,
            final(self).stride == old(self).stride,
            final(self).priority == old(self).priority,
            final(self).memory_set == old(self).memory_set,
            final(self).heap_bottom == old(self).heap_bottom,
            final(self).program_brk == old(self).program_brk,
    {
        self.task_status = TaskStatus::Ready;
    }

    /// Ready to Running at time `now_ms`; the first time records the start time.
    pub fn make_running(&mut self, now_ms: usize)
        requires
            old(self).task_status == TaskStatus::Ready,
        ensures
            final(self).task_status == TaskStatus::Running,
            final(self).start_time == (match old(self).start_time {
                Some(t) => Some(t),
                None => Some(now_ms),
            }),
            final(self).task_cx == old(self).task_cx,
            final(self).syscall_times == old(self).syscall_times,
            final(self).stride == old(self).stride,
            final(self).priority == old(self).priority,
            final(self).memory_set == old(self).memory_set,
            final(self).heap_bottom == old(self).heap_bottom,
            final(self).program_brk == old(self).program_brk,
    {
        self.task_status = TaskStatus::Running;
        if self.start_time.is_none() {
            self.start_time = Some(now_ms);
        }
    }

    /// Running to Exited: the task has finished.
    pub fn mark_exited(&mut self)
        requires
            old(self).task_status == TaskStatus::Running,
        ensures
            final(self).task_status == TaskStatus::Exited,
            final(self).task_cx == old(self).task_cx,
            final(self).syscall_times == old(self).syscall_times,
            final(self).start_time == old(self).start_time,
            final(self).stride == old(self).stride,
            final(self).priority == old(self).priority,
            final(self).memory_set == old(self).memory_set,
            final(self).heap_bottom == old(self).heap_bottom,
            final(self).program_brk == old(self).program_brk,
    {
        self.task_status = TaskStatus::Exited;
    }

    /// Running to Ready: the task gives up the processor.
    pub fn suspend(&mut self)
        requires
            old(self).task_status == TaskStatus::Running,
        ensures
            final(self).task_status == TaskStatus::Ready,
            final(self).task_cx == old(self).task_cx,
            final(self).syscall_times == old(self).syscall_times,
            final(self).start_time == old(self).start_time,
            final(self).stride == old(self).stride,
            final(self).priority == old(self).priority,
            final(self).memory_set == old(self).memory_set,
            final(self).heap_bottom == old(self).heap_bottom,
            final(self).program_brk == old(self).program_brk,
    {
        self.task_status = TaskStatus::Ready;
    }
}

/// Advancing a stride `n` times by `step` gives `(stride + n * step) mod 2^64`.
pub proof fn lemma_stride_after_n(stride: u64, step: u64, n: nat)
    ensures
        advance_n(stride, step, n) as int == (stride + n * step) % 0x1_0000_0000_0000_0000int,
    decreases n,
{
    let m = 0x1_0000_0000_0000_0000int;
    if n == 0 {
        vstd::arithmetic::div_mod::lemma_small_mod(stride as nat, m as nat);
    } else {
        lemma_stride_after_n(stride, step, (n - 1) as nat);
        let prev = advance_n(stride, step, (n - 1) as nat) as int;
        let x = stride + (n - 1) * step;
        vstd::arithmetic::div_mod::lemma_add_mod_noop(x, step as int, m);
        vstd::arithmetic::div_mod::lemma_small_mod(step as nat, m as nat);
        assert(x + step == stride + n * step) by (nonlinear_arith)
            requires x == stride + (n - 1) * step, n > 0;
        assert(advance_n(stride, step, n) as int == (prev + step) % m);
    }
}

} // verus!
