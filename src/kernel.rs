//! The kernel context: ready queue, running task and frame pool, with the
//! scheduling transitions between them.
use vstd::prelude::*;
use crate::manager::{TaskManager, scan_min, strides, stride_updated};
use crate::mm::{
    FrameAllocator, map_ok, mapped_fresh, unmap_ok, unmapped, owned_by, frames_disjoint, spaces_exclusive,
    apart_from_all, lemma_spaces_remove, lemma_spaces_push, lemma_spaces_pool, lemma_owned_after_map,
    lemma_owned_after_unmap, lemma_disjoint_symmetric,
};
use crate::sync::UPSafeCell;
use crate::task::{TaskControlBlock, TaskStatus, advance, step_of, counted};

verus! {

/// `t` is `before` picked by the scheduler at time `now_ms`: its stride
/// advanced by its step, its status Running, its start time recorded if it
/// had none, every other field kept.
pub open spec fn dispatched(before: TaskControlBlock, t: TaskControlBlock, now_ms: usize) -> bool {
    &&& t.stride == advance(before.stride, step_of(before.priority))
    &&& t.task_status == TaskStatus::Running
    &&& t.start_time == (match before.start_time {
        Some(s) => Some(s),
        None => Some(now_ms),
    })
    &&& t.task_cx == before.task_cx
    &&& t.syscall_times == before.syscall_times
    &&& t.priority == before.priority
    &&& t.memory_set == before.memory_set
    &&& t.heap_bottom == before.heap_bottom
    &&& t.program_brk == before.program_brk
}

/// The outcome of a scheduling decision over queue `q` at time `now_ms`:
/// `running` is the least-stride task of `q` (first match), dispatched, and
/// `rest` is `q` without it; an empty queue leaves nothing running.
pub open spec fn scheduled(q: Seq<TaskControlBlock>, running: Option<TaskControlBlock>, rest: Seq<TaskControlBlock>, now_ms: usize) -> bool {
    if q.len() == 0 {
        running.is_none() && rest == q
    } else {
        let i = scan_min(strides(q), q.len()) as int;
        &&& running.is_some()
        &&& dispatched(q[i], running.unwrap(), now_ms)
        &&& rest == q.remove(i)
    }
}

/// `t` is `before` with its status set to `status`, every other field kept.
pub open spec fn with_status(before: TaskControlBlock, t: TaskControlBlock, status: TaskStatus) -> bool {
    &&& t.task_status == status
    &&& t.stride == before.stride
    &&& t.start_time == before.start_time
    &&& t.task_cx == before.task_cx
    &&& t.syscall_times == before.syscall_times
    &&& t.priority == before.priority
    &&& t.memory_set == before.memory_set
    &&& t.heap_bottom == before.heap_bottom
    &&& t.program_brk == before.program_brk
}

/// `t` is `before` with at most its address space and program break changed.
pub open spec fn same_but_memory(before: TaskControlBlock, t: TaskControlBlock) -> bool {
    &&& t.task_status == before.task_status
    &&& t.stride == before.stride
    &&& t.start_time == before.start_time
    &&& t.task_cx == before.task_cx
    &&& t.syscall_times == before.syscall_times
    &&& t.priority == before.priority
    &&& t.heap_bottom == before.heap_bottom
}

/// The state shared by the scheduler and the system call handlers.
pub struct Kernel {
    manager: UPSafeCell<TaskManager>,
    current: Option<TaskControlBlock>,
    frames: FrameAllocator,
}

impl Kernel {
    /// The ready queue.
    pub closed spec fn ready(&self) -> Seq<TaskControlBlock> {
        self.manager.value().queue()
    }

    /// The running task, if any.
    pub closed spec fn running(&self) -> Option<TaskControlBlock> {
        self.current
    }

    /// The pool of physical frames.
    pub closed spec fn frame_pool(&self) -> FrameAllocator {
        self.frames
    }

    /// Every live task: the ready ones, then the running one.
    pub open spec fn all_tasks(&self) -> Seq<TaskControlBlock> {
        match self.running() {
            Some(t) => self.ready().push(t),
            None => self.ready(),
        }
    }

    /// The address spaces of the ready tasks, in queue order.
    pub open spec fn ready_spaces(&self) -> Seq<Map<usize, (usize, u8)>> {
        self.ready().map_values(|t: TaskControlBlock| t.memory_set.view())
    }

    /// Every live task owns the frames behind its pages: each frame backs
    /// one page of one task and is out of the free pool.
    pub open spec fn frames_exclusive(&self) -> bool {
        &&& spaces_exclusive(self.ready_spaces(), self.frame_pool())
        &&& self.running().is_some() ==> owned_by(self.running().unwrap().memory_set.view(), self.frame_pool())
        &&& self.running().is_some() ==> apart_from_all(self.running().unwrap().memory_set.view(), self.ready_spaces())
    }

    /// A task with address space `m` may join: it owns its frames and
    /// shares none with a live task.
    pub open spec fn can_join(&self, m: Map<usize, (usize, u8)>) -> bool {
        &&& owned_by(m, self.frame_pool())
        &&& apart_from_all(m, self.ready_spaces())
        &&& self.running().is_some() ==> frames_disjoint(self.running().unwrap().memory_set.view(), m)
    }

    pub open spec fn wf(&self) -> bool {
        &&& self.frames_exclusive()
        &&& self.manager_wf()
        &&& forall|i: int| 0 <= i < self.ready().len() ==> (#[trigger] self.ready()[i]).task_status == TaskStatus::Ready
        &&& forall|i: int| 0 <= i < self.ready().len() ==> (#[trigger] self.ready()[i]).wf()
        &&& self.running().is_some() ==> self.running().unwrap().wf()
        &&& self.running().is_some() ==> self.running().unwrap().task_status == TaskStatus::Running
        &&& self.frame_pool().wf()
    }

    pub closed spec fn manager_wf(&self) -> bool {
        self.manager.value().wf()
    }

    /// A kernel with no tasks and physical frames `[frame_lo, frame_hi)`.
    pub fn new(frame_lo: usize, frame_hi: usize) -> (r: Self)
        requires
            frame_lo <= frame_hi,
        ensures
            r.wf(),
            r.ready() == Seq::<TaskControlBlock>::empty(),
            r.running().is_none(),
            r.frame_pool().available() == frame_hi - frame_lo,
            forall|p: usize| r.frame_pool().is_free(p) <==> frame_lo <= p < frame_hi,
    {
        let k = Kernel {
            manager: UPSafeCell::new(TaskManager::new()),
            current: None,
            frames: FrameAllocator::new(frame_lo, frame_hi),
        };
        assert(k.ready_spaces() =~= Seq::<Map<usize, (usize, u8)>>::empty());
        k
    }

    /// The running task, if any.
    pub fn current_task(&self) -> (r: Option<&TaskControlBlock>)
        ensures
            r == (match self.running() {
                Some(t) => Some(&t),
                None => None::<&TaskControlBlock>,
            }),
    {
        match &self.current {
            Some(t) => Some(t),
            None => None,
        }
    }

    /// Number of ready tasks.
    pub fn ready_len(&self) -> (r: usize)
        ensures
            r == self.ready().len(),
    {
        self.manager.get().len()
    }

    /// Picks the next task to run from the ready queue, when nothing runs.
    /// Returns whether a task now runs.
    pub fn run_next(&mut self, now_ms: usize) -> (r: bool)
        requires
            old(self).wf(),
            old(self).running().is_none(),
        ensures
            final(self).wf(),
            r == (old(self).ready().len() > 0),
            scheduled(old(self).ready(), final(self).running(), final(self).ready(), now_ms),
            final(self).frame_pool() == old(self).frame_pool(),
    {
        let m = self.manager.exclusive_access();
        let picked = m.fetch();
        match picked {
            Some(t) => {
                let mut t = t;
                t.make_running(now_ms);
                self.current = Some(t);
                proof {
                    let q = old(self).ready();
                    let i = scan_min(strides(q), q.len()) as int;
                    let vs = old(self).ready_spaces();
                    lemma_spaces_remove(vs, self.frames, i);
                    assert(self.ready_spaces() =~= vs.remove(i));
                    assert(vs[i] == q[i].memory_set.view());
                    assert(q[i].task_status == TaskStatus::Ready);
                    assert forall|k: int| 0 <= k < self.ready().len() implies (#[trigger] self.ready()[k]).task_status == TaskStatus::Ready by {
                        if k < i {
                            assert(self.ready()[k] == q[k]);
                        } else {
                            assert(self.ready()[k] == q[k + 1]);
                        }
                    }
                }
                true
            },
            None => {
                assert(self.ready_spaces() =~= old(self).ready_spaces());
                false
            },
        }
    }

    /// The running task gives up the processor: it goes back to the ready
    /// queue, and the scheduler picks the next task (possibly the same one).
    pub fn suspend_current_and_run_next(&mut self, now_ms: usize)
        requires
            old(self).wf(),
            old(self).running().is_some(),
        ensures
            final(self).wf(),
            final(self).running().is_some(),
            exists|t: TaskControlBlock| with_status(old(self).running().unwrap(), t, TaskStatus::Ready)
                && #[trigger] scheduled(old(self).ready().push(t), final(self).running(), final(self).ready(), now_ms),
            final(self).frame_pool() == old(self).frame_pool(),
    {
        let mut t = self.current.take().unwrap();
        t.suspend();
        let ghost t1 = t;
        let m = self.manager.exclusive_access();
        m.add(t);
        proof {
            let q = self.ready();
            assert(q == old(self).ready().push(t1));
            lemma_spaces_push(old(self).ready_spaces(), self.frames, t1.memory_set.view());
            assert(self.ready_spaces() =~= old(self).ready_spaces().push(t1.memory_set.view()));
            assert forall|k: int| 0 <= k < q.len() implies (#[trigger] q[k]).task_status == TaskStatus::Ready by {
                if k < old(self).ready().len() {
                    assert(q[k] == old(self).ready()[k]);
                }
            }
        }
        self.run_next(now_ms);
        assert(scheduled(old(self).ready().push(t1), self.running(), self.ready(), now_ms));
    }

    /// The running task exits: it is marked Exited, its address space is
    /// released back to the frame pool, and the scheduler picks the next task.
    /// Returns whether a task now runs; `false` means no work is left.
    pub fn exit_current_and_run_next(&mut self, now_ms: usize) -> (r: bool)
        requires
            old(self).wf(),
            old(self).running().is_some(),
        ensures
            final(self).wf(),
            r == (old(self).ready().len() > 0),
            scheduled(old(self).ready(), final(self).running(), final(self).ready(), now_ms),
            forall|p: usize| #[trigger] old(self).frame_pool().is_free(p) ==> final(self).frame_pool().is_free(p),
            forall|v: usize| #[trigger] old(self).running().unwrap().memory_set.view().contains_key(v)
                ==> final(self).frame_pool().is_free(old(self).running().unwrap().memory_set.view()[v].0),
    {
        let mut t = self.current.take().unwrap();
        t.mark_exited();
        let ghost f0 = self.frames;
        t.memory_set.release(&mut self.frames);
        proof {
            let m = old(self).running().unwrap().memory_set.view();
            lemma_spaces_pool(old(self).ready_spaces(), f0, self.frames, m);
        }
        self.run_next(now_ms)
    }
}

impl Kernel {
    /// The running task's page table.
    pub open spec fn current_view(&self) -> Map<usize, (usize, u8)> {
        self.running().unwrap().memory_set.view()
    }

    /// Counts one call of system call `id` for the running task.
    pub fn count_syscall(&mut self, id: usize)
        requires
            old(self).wf(),
            old(self).running().is_some(),
        ensures
            final(self).wf(),
            final(self).ready() == old(self).ready(),
            final(self).frame_pool() == old(self).frame_pool(),
            final(self).running().is_some(),
            final(self).running().unwrap().syscall_times@ == counted(old(self).running().unwrap().syscall_times@, id),
            final(self).running().unwrap().task_status == old(self).running().unwrap().task_status,
            final(self).running().unwrap().start_time == old(self).running().unwrap().start_time,
            final(self).running().unwrap().stride == old(self).running().unwrap().stride,
            final(self).running().unwrap().memory_set == old(self).running().unwrap().memory_set,
            final(self).running().unwrap().program_brk == old(self).running().unwrap().program_brk,
            final(self).running().unwrap().heap_bottom == old(self).running().unwrap().heap_bottom,
    {
        let mut t = self.current.take().unwrap();
        t.increase_syscall_count(id);
        self.current = Some(t);
    }

    /// Maps pages `[lo, hi)` of the running task to new frames with `flags`,
    /// all or nothing (see `AddressSpace::map_range`).
    pub fn map_current(&mut self, lo: usize, hi: usize, flags: u8) -> (r: bool)
        requires
            old(self).wf(),
            old(self).running().is_some(),
            lo <= hi,
            flags % 2 == 1,
        ensures
            final(self).wf(),
            final(self).ready() == old(self).ready(),
            final(self).running().is_some(),
            same_but_memory(old(self).running().unwrap(), final(self).running().unwrap()),
            final(self).running().unwrap().program_brk == old(self).running().unwrap().program_brk,
            final(self).frame_pool().frame_end() == old(self).frame_pool().frame_end(),
            r == map_ok(old(self).current_view(), old(self).frame_pool(), lo, hi),
            !r ==> final(self).current_view() == old(self).current_view() && final(self).frame_pool() == old(self).frame_pool(),
            r ==> mapped_fresh(old(self).current_view(), final(self).current_view(), old(self).frame_pool(), final(self).frame_pool(), lo, hi, flags),
    {
        let mut t = self.current.take().unwrap();
        let ghost f0 = self.frames;
        let ghost m0 = t.memory_set.view();
        let r = t.memory_set.map_range(&mut self.frames, lo, hi, flags);
        proof {
            if r {
                lemma_owned_after_map(m0, t.memory_set.view(), f0, self.frames, self.ready_spaces(), lo, hi, flags);
                lemma_spaces_pool(self.ready_spaces(), f0, self.frames, m0);
            }
        }
        self.current = Some(t);
        r
    }

    /// Unmaps pages `[lo, hi)` of the running task, all or nothing (see
    /// `AddressSpace::unmap_range`).
    pub fn unmap_current(&mut self, lo: usize, hi: usize) -> (r: bool)
        requires
            old(self).wf(),
            old(self).running().is_some(),
            lo <= hi,
        ensures
            final(self).wf(),
            final(self).ready() == old(self).ready(),
            final(self).running().is_some(),
            same_but_memory(old(self).running().unwrap(), final(self).running().unwrap()),
            final(self).running().unwrap().program_brk == old(self).running().unwrap().program_brk,
            final(self).frame_pool().frame_end() == old(self).frame_pool().frame_end(),
            r == unmap_ok(old(self).current_view(), lo, hi),
            !r ==> final(self).current_view() == old(self).current_view() && final(self).frame_pool() == old(self).frame_pool(),
            r ==> unmapped(old(self).current_view(), final(self).current_view(), old(self).frame_pool(), final(self).frame_pool(), lo, hi),
    {
        let mut t = self.current.take().unwrap();
        let ghost f0 = self.frames;
        let ghost m0 = t.memory_set.view();
        let r = t.memory_set.unmap_range(&mut self.frames, lo, hi);
        proof {
            if r {
                lemma_owned_after_unmap(m0, t.memory_set.view(), f0, self.frames, self.ready_spaces(), lo, hi);
                lemma_spaces_pool(self.ready_spaces(), f0, self.frames, m0);
            }
        }
        self.current = Some(t);
        r
    }

    /// Sets the running task's program break.
    pub fn set_brk(&mut self, brk: usize)
        requires
            old(self).wf(),
            old(self).running().is_some(),
            old(self).running().unwrap().heap_bottom <= brk,
        ensures
            final(self).wf(),
            final(self).ready() == old(self).ready(),
            final(self).frame_pool() == old(self).frame_pool(),
            final(self).running().is_some(),
            same_but_memory(old(self).running().unwrap(), final(self).running().unwrap()),
            final(self).current_view() == old(self).current_view(),
            final(self).running().unwrap().program_brk == brk,
    {
        let mut t = self.current.take().unwrap();
        t.program_brk = brk;
        self.current = Some(t);
    }
}

/// Appends a ready task to the kernel's ready queue.
pub fn add_task(k: &mut Kernel, task: TaskControlBlock)
    requires
        old(k).wf(),
        task.wf(),
        task.task_status == TaskStatus::Ready,
        old(k).can_join(task.memory_set.view()),
    ensures
        final(k).wf(),
        final(k).ready() == old(k).ready().push(task),
        final(k).running() == old(k).running(),
        final(k).frame_pool() == old(k).frame_pool(),
{
    k.add_ready(task)
}

/// Takes the least-stride task out of the kernel's ready queue, its stride
/// advanced; `None` when the queue is empty.
pub fn fetch_task(k: &mut Kernel) -> (r: Option<TaskControlBlock>)
    requires
        old(k).wf(),
    ensures
        final(k).wf(),
        r.is_none() <==> old(k).ready().len() == 0,
        r.is_none() ==> final(k).ready() == old(k).ready(),
        r.is_some() ==> {
            let i = scan_min(strides(old(k).ready()), old(k).ready().len()) as int;
            &&& stride_updated(old(k).ready()[i], r.unwrap())
            &&& final(k).ready() == old(k).ready().remove(i)
        },
        final(k).running() == old(k).running(),
        final(k).frame_pool() == old(k).frame_pool(),
{
    k.take_ready()
}

impl Kernel {
    fn add_ready(&mut self, task: TaskControlBlock)
        requires
            old(self).wf(),
            task.wf(),
            task.task_status == TaskStatus::Ready,
            old(self).can_join(task.memory_set.view()),
        ensures
            final(self).wf(),
            final(self).ready() == old(self).ready().push(task),
            final(self).running() == old(self).running(),
            final(self).frame_pool() == old(self).frame_pool(),
    {
        let ghost tv = task.memory_set.view();
        let m = self.manager.exclusive_access();
        m.add(task);
        proof {
            let vs = old(self).ready_spaces();
            lemma_spaces_push(vs, self.frames, tv);
            assert(self.ready_spaces() =~= vs.push(tv));
            if self.current.is_some() {
                let cv = self.current.unwrap().memory_set.view();
                assert forall|j: int| 0 <= j < self.ready_spaces().len() implies frames_disjoint(cv, #[trigger] self.ready_spaces()[j]) by {
                    if j < vs.len() {
                        assert(self.ready_spaces()[j] == vs[j]);
                    }
                }
            }
            let q = self.ready();
            assert forall|k: int| 0 <= k < q.len() implies (#[trigger] q[k]).task_status == TaskStatus::Ready by {
                if k < old(self).ready().len() {
                    assert(q[k] == old(self).ready()[k]);
                }
            }
        }
    }

    fn take_ready(&mut self) -> (r: Option<TaskControlBlock>)
        requires
            old(self).wf(),
        ensures
            final(self).wf(),
            r.is_none() <==> old(self).ready().len() == 0,
            r.is_none() ==> final(self).ready() == old(self).ready(),
            r.is_some() ==> {
                let i = scan_min(strides(old(self).ready()), old(self).ready().len()) as int;
                &&& stride_updated(old(self).ready()[i], r.unwrap())
                &&& final(self).ready() == old(self).ready().remove(i)
            },
            final(self).running() == old(self).running(),
            final(self).frame_pool() == old(self).frame_pool(),
    {
        let m = self.manager.exclusive_access();
        let r = m.fetch();
        proof {
            if r.is_none() {
                assert(self.ready_spaces() =~= old(self).ready_spaces());
            }
            if r.is_some() {
                let q = old(self).ready();
                let i = scan_min(strides(q), q.len()) as int;
                let vs = old(self).ready_spaces();
                lemma_spaces_remove(vs, self.frames, i);
                assert(self.ready_spaces() =~= vs.remove(i));
                if self.current.is_some() {
                    let cv = self.current.unwrap().memory_set.view();
                    assert forall|j: int| 0 <= j < vs.remove(i).len() implies frames_disjoint(cv, #[trigger] vs.remove(i)[j]) by {
                        if j < i {
                            assert(vs.remove(i)[j] == vs[j]);
                        } else {
                            assert(vs.remove(i)[j] == vs[j + 1]);
                        }
                    }
                }
                assert forall|k: int| 0 <= k < self.ready().len() implies (#[trigger] self.ready()[k]).task_status == TaskStatus::Ready by {
                    if k < i {
                        assert(self.ready()[k] == q[k]);
                    } else {
                        assert(self.ready()[k] == q[k + 1]);
                    }
                }
            }
        }
        r
    }
}

/// In every well-formed kernel state at most one task is Running: the
/// scheduling transitions above all preserve well-formedness.
pub proof fn lemma_at_most_one_running(k: &Kernel)
    requires
        k.wf(),
    ensures
        forall|i: int, j: int|
            0 <= i < k.all_tasks().len() && 0 <= j < k.all_tasks().len()
            && (#[trigger] k.all_tasks()[i]).task_status == TaskStatus::Running
            && (#[trigger] k.all_tasks()[j]).task_status == TaskStatus::Running
            ==> i == j,
{
    let all = k.all_tasks();
    assert forall|i: int| 0 <= i < all.len() && (#[trigger] all[i]).task_status == TaskStatus::Running
        implies i == k.ready().len() by {
        if i < k.ready().len() {
            assert(all[i] == k.ready()[i]);
        }
    }
}

} // verus!
