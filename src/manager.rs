//! The ready queue and its stride scheduler.
use vstd::prelude::*;
use crate::task::{TaskControlBlock, advance, step_of, HALF_RANGE};

verus! {

/// How far `b` lies ahead of `a` on the wrapping stride counter.
pub open spec fn distance(a: u64, b: u64) -> int {
    if b >= a {
        b - a
    } else {
        b - a + 0x1_0000_0000_0000_0000int
    }
}

/// Wrap-aware stride order: `a` comes before `b` when `b` lies ahead of `a`
/// by less than half the counter's range.
pub open spec fn stride_before(a: u64, b: u64) -> bool {
    0 < distance(a, b) < HALF_RANGE
}

/// The index a scan of the first `n` strides settles on: it moves to a later
/// stride only when that one comes strictly before the best so far, so ties
/// go to the first match in queue order.
pub open spec fn scan_min(s: Seq<u64>, n: nat) -> nat
    decreases n,
{
    if n <= 1 {
        0
    } else {
        let m = scan_min(s, (n - 1) as nat);
        if stride_before(s[n - 1], s[m as int]) {
            (n - 1) as nat
        } else {
            m
        }
    }
}

/// The strides of the tasks in a queue, in queue order.
pub open spec fn strides(q: Seq<TaskControlBlock>) -> Seq<u64> {
    q.map_values(|t: TaskControlBlock| t.stride)
}

/// `t` is `before` after one stride update, every other field kept.
pub open spec fn stride_updated(before: TaskControlBlock, t: TaskControlBlock) -> bool {
    &&& t.stride == advance(before.stride, step_of(before.priority))
    &&& t.task_status == before.task_status
    &&& t.task_cx == before.task_cx
    &&& t.syscall_times == before.syscall_times
    &&& t.start_time == before.start_time
    &&& t.priority == before.priority
    &&& t.memory_set == before.memory_set
    &&& t.heap_bottom == before.heap_bottom
    &&& t.program_brk == before.program_brk
}

/// Wrap-aware comparison of two strides.
pub fn stride_less(a: u64, b: u64) -> (r: bool)
    ensures
        r == stride_before(a, b),
{
    let d = b.wrapping_sub(a);
    d != 0 && d < HALF_RANGE
}

/// The ready queue. Tasks are picked by least stride, not by position.
pub struct TaskManager {
    ready_queue: Vec<TaskControlBlock>,
}

impl TaskManager {
    /// The queued tasks, in insertion order.
    pub closed spec fn queue(&self) -> Seq<TaskControlBlock> {
        self.ready_queue@
    }

    pub open spec fn wf(&self) -> bool {
        forall|i: int| 0 <= i < self.queue().len() ==> (#[trigger] self.queue()[i]).wf()
    }

    /// An empty queue.
    pub fn new() -> (r: Self)
        ensures
            r.wf(),
            r.queue() == Seq::<TaskControlBlock>::empty(),
    {
        TaskManager { ready_queue: Vec::new() }
    }

    /// Number of queued tasks.
    pub fn len(&self) -> (r: usize)
        ensures
            r == self.queue().len(),
    {
        self.ready_queue.len()
    }

    /// Appends a task to the ready queue.
    pub fn add(&mut self, task: TaskControlBlock)
        requires
            old(self).wf(),
            task.wf(),
        ensures
            final(self).wf(),
            final(self).queue() == old(self).queue().push(task),
    {
        self.ready_queue.push(task);
    }

    /// Removes the task with the least stride (first match on ties), advances
    /// its stride by its step and returns it; `None` when the queue is empty.
    pub fn fetch(&mut self) -> (r: Option<TaskControlBlock>)
        requires
            old(self).wf(),
        ensures
            final(self).wf(),
            r.is_none() <==> old(self).queue().len() == 0,
            r.is_none() ==> final(self).queue() == old(self).queue(),
            r.is_some() ==> {
                let i = scan_min(strides(old(self).queue()), old(self).queue().len()) as int;
                &&& 0 <= i < old(self).queue().len()
                &&& stride_updated(old(self).queue()[i], r.unwrap())
                &&& r.unwrap().wf()
                &&& final(self).queue() == old(self).queue().remove(i)
            },
    {
        let n = self.ready_queue.len();
        if n == 0 {
            return None;
        }
        let ghost s = strides(self.queue());
        let mut min_index: usize = 0;
        let mut i: usize = 1;
        while i < n
            invariant
                n == self.ready_queue@.len(),
                s == strides(self.queue()),
                1 <= i <= n,
                min_index == scan_min(s, i as nat),
                min_index < i,
            decreases n - i,
        {
            if stride_less(self.ready_queue[i].stride, self.ready_queue[min_index].stride) {
                min_index = i;
            }
            i = i + 1;
        }
        let ghost q0 = self.queue();
        let mut task = self.ready_queue.remove(min_index);
        assert(task.wf());
        task.update_stride();
        assert forall|k: int| 0 <= k < self.queue().len() implies (#[trigger] self.queue()[k]).wf() by {
            if k < min_index {
                assert(self.queue()[k] == q0[k]);
            } else {
                assert(self.queue()[k] == q0[k + 1]);
            }
        }
        Some(task)
    }
}

/// Under the window condition (every stride lies less than half the range
/// ahead of some base), the scan picks a task whose stride is least in
/// effective order, and no earlier task shares it: the wrap-aware
/// comparison stays correct when some strides have wrapped and others not.
pub proof fn lemma_scan_picks_least(s: Seq<u64>, base: u64)
    requires
        s.len() > 0,
        forall|j: int| 0 <= j < s.len() ==> distance(base, #[trigger] s[j]) < HALF_RANGE,
    ensures
        ({
            let i = scan_min(s, s.len()) as int;
            &&& 0 <= i < s.len()
            &&& forall|j: int| 0 <= j < s.len() ==> distance(base, s[i]) <= distance(base, #[trigger] s[j])
            &&& forall|j: int| 0 <= j < i ==> distance(base, s[i]) < distance(base, #[trigger] s[j])
        }),
{
    lemma_scan_prefix(s, base, s.len());
}

proof fn lemma_scan_prefix(s: Seq<u64>, base: u64, n: nat)
    requires
        0 < n <= s.len(),
        forall|j: int| 0 <= j < s.len() ==> distance(base, #[trigger] s[j]) < HALF_RANGE,
    ensures
        ({
            let i = scan_min(s, n) as int;
            &&& 0 <= i < n
            &&& forall|j: int| 0 <= j < n ==> distance(base, s[i]) <= distance(base, #[trigger] s[j])
            &&& forall|j: int| 0 <= j < i ==> distance(base, s[i]) < distance(base, #[trigger] s[j])
        }),
    decreases n,
{
    if n > 1 {
        lemma_scan_prefix(s, base, (n - 1) as nat);
        let m = scan_min(s, (n - 1) as nat) as int;
        let a = s[n - 1];
        let b = s[m];
        assert(distance(base, a) < HALF_RANGE);
        assert(distance(base, b) < HALF_RANGE);
        assert(stride_before(a, b) <==> distance(base, a) < distance(base, b));
    }
}

/// For any queue whose strides lie in a window of less than half the range,
/// `fetch` hands out a task of least effective stride, the first such one.
pub proof fn lemma_fetch_picks_least(q: Seq<TaskControlBlock>, base: u64)
    requires
        q.len() > 0,
        forall|j: int| 0 <= j < q.len() ==> distance(base, (#[trigger] q[j]).stride) < HALF_RANGE,
    ensures
        ({
            let i = scan_min(strides(q), q.len()) as int;
            &&& 0 <= i < q.len()
            &&& forall|j: int| 0 <= j < q.len() ==> distance(base, q[i].stride) <= distance(base, (#[trigger] q[j]).stride)
            &&& forall|j: int| 0 <= j < i ==> distance(base, q[i].stride) < distance(base, (#[trigger] q[j]).stride)
        }),
{
    let s = strides(q);
    assert forall|j: int| 0 <= j < s.len() implies distance(base, #[trigger] s[j]) < HALF_RANGE by {
        assert(s[j] == q[j].stride);
    }
    lemma_scan_picks_least(s, base);
    let i = scan_min(s, q.len()) as int;
    assert forall|j: int| 0 <= j < q.len() implies distance(base, q[i].stride) <= distance(base, (#[trigger] q[j]).stride) by {
        assert(s[j] == q[j].stride);
    }
    assert forall|j: int| 0 <= j < i implies distance(base, q[i].stride) < distance(base, (#[trigger] q[j]).stride) by {
        assert(s[j] == q[j].stride);
    }
}

} // verus!
