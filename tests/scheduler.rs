use os::kernel::{add_task, fetch_task, Kernel};
use os::manager::{stride_less, TaskManager};
use os::mm::AddressSpace;
use os::sync::UPSafeCell;
use os::task::{TaskContext, TaskControlBlock, TaskStatus, BIG_STRIDE, MAX_SYSCALL_NUM};

fn ready_task(priority: u64, ra: usize) -> TaskControlBlock {
    let mut t = TaskControlBlock::new(TaskContext { ra, sp: 0 }, priority, AddressSpace::new(), 0x1000);
    t.make_ready();
    t
}

#[test]
fn new_task_starts_uninit_with_zero_counts() {
    let t = TaskControlBlock::new(TaskContext { ra: 7, sp: 8 }, 4, AddressSpace::new(), 0x2000);
    assert_eq!(t.task_status, TaskStatus::UnInit);
    assert_eq!(t.syscall_times.len(), MAX_SYSCALL_NUM);
    assert!(t.syscall_times.iter().all(|c| *c == 0));
    assert_eq!(t.stride, 0);
    assert_eq!(t.program_brk, 0x2000);
    assert_eq!(t.start_time, None);
}

#[test]
fn syscall_count_ignores_out_of_range_ids() {
    let mut t = ready_task(2, 0);
    t.increase_syscall_count(64);
    t.increase_syscall_count(64);
    t.increase_syscall_count(410);
    t.increase_syscall_count(MAX_SYSCALL_NUM);
    t.increase_syscall_count(usize::MAX);
    assert_eq!(t.syscall_times[64], 2);
    assert_eq!(t.syscall_times[410], 1);
    assert_eq!(t.syscall_times.iter().map(|c| *c as u64).sum::<u64>(), 3);
}

#[test]
fn update_stride_adds_big_stride_over_priority() {
    let mut t = ready_task(4, 0);
    t.update_stride();
    assert_eq!(t.stride, BIG_STRIDE / 4);
    t.update_stride();
    assert_eq!(t.stride, 2 * (BIG_STRIDE / 4));
}

#[test]
fn stride_after_n_updates_wraps() {
    let mut t = ready_task(2, 0);
    let step = BIG_STRIDE / 2;
    t.stride = u64::MAX - step;
    let s0 = t.stride;
    for _ in 0..3 {
        t.update_stride();
    }
    assert_eq!(t.stride, s0.wrapping_add(3 * step));
    assert_eq!(t.stride as u128, (s0 as u128 + 3 * step as u128) % (1u128 << 64));
}

#[test]
fn fetch_on_empty_queue_is_none() {
    let mut m = TaskManager::new();
    assert!(m.fetch().is_none());
    assert_eq!(m.len(), 0);
}

#[test]
fn fetch_order_priority_four_and_two() {
    let mut m = TaskManager::new();
    m.add(ready_task(4, 1));
    m.add(ready_task(2, 2));
    let mut order = Vec::new();
    for _ in 0..3 {
        let t = m.fetch().unwrap();
        order.push(t.task_cx.ra);
        m.add(t);
    }
    assert_eq!(order, vec![1, 2, 1]);
}

#[test]
fn fetch_tie_goes_to_first_in_queue() {
    let mut m = TaskManager::new();
    m.add(ready_task(2, 10));
    m.add(ready_task(2, 20));
    m.add(ready_task(2, 30));
    let t = m.fetch().unwrap();
    assert_eq!(t.task_cx.ra, 10);
    assert_eq!(t.stride, BIG_STRIDE / 2);
    assert_eq!(m.len(), 2);
}

#[test]
fn wrapped_stride_still_compares_after_unwrapped() {
    // `wrapped` has run past the top of the counter; `behind` has not yet.
    let mut wrapped = ready_task(2, 1);
    wrapped.stride = 50;
    let mut behind = ready_task(2, 2);
    behind.stride = u64::MAX - 10;
    assert!(stride_less(behind.stride, wrapped.stride));
    assert!(!stride_less(wrapped.stride, behind.stride));
    let mut m = TaskManager::new();
    m.add(wrapped);
    m.add(behind);
    let t = m.fetch().unwrap();
    assert_eq!(t.task_cx.ra, 2);
    assert_eq!(t.stride, (u64::MAX - 10).wrapping_add(BIG_STRIDE / 2));
}

#[test]
fn stride_less_is_strict() {
    assert!(!stride_less(5, 5));
    assert!(stride_less(5, 6));
    assert!(!stride_less(6, 5));
    assert!(stride_less(u64::MAX, 0));
}

#[test]
fn kernel_runs_one_task_at_a_time() {
    let mut k = Kernel::new(100, 200);
    add_task(&mut k, ready_task(4, 1));
    add_task(&mut k, ready_task(2, 2));
    assert!(k.current_task().is_none());
    assert!(k.run_next(5));
    let running = k.current_task().unwrap();
    assert_eq!(running.task_cx.ra, 1);
    assert_eq!(running.task_status, TaskStatus::Running);
    assert_eq!(running.start_time, Some(5));
    assert_eq!(k.ready_len(), 1);
    k.suspend_current_and_run_next(9);
    assert_eq!(k.current_task().unwrap().task_cx.ra, 2);
    assert_eq!(k.current_task().unwrap().start_time, Some(9));
    assert_eq!(k.ready_len(), 1);
    k.suspend_current_and_run_next(12);
    assert_eq!(k.current_task().unwrap().task_cx.ra, 1);
    assert_eq!(k.current_task().unwrap().start_time, Some(5));
    assert!(k.exit_current_and_run_next(15));
    assert_eq!(k.current_task().unwrap().task_cx.ra, 2);
    assert_eq!(k.ready_len(), 0);
    assert!(!k.exit_current_and_run_next(20));
    assert!(k.current_task().is_none());
}

#[test]
fn fetch_task_takes_least_stride() {
    let mut k = Kernel::new(0, 0);
    let mut a = ready_task(2, 1);
    a.stride = 300;
    let mut b = ready_task(2, 2);
    b.stride = 100;
    add_task(&mut k, a);
    add_task(&mut k, b);
    let t = fetch_task(&mut k).unwrap();
    assert_eq!(t.task_cx.ra, 2);
    assert_eq!(t.stride, 100 + BIG_STRIDE / 2);
    assert_eq!(k.ready_len(), 1);
    assert!(fetch_task(&mut k).is_some());
    assert!(fetch_task(&mut k).is_none());
}

#[test]
fn exclusive_access_writes_through() {
    let mut cell = UPSafeCell::new(5u32);
    {
        let v = cell.exclusive_access();
        *v += 3;
    }
    assert_eq!(*cell.get(), 8);
}
