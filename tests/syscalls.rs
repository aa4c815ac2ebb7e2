use os::info::{TaskInfo, TimeVal, TASK_INFO_SIZE};
use os::kernel::{add_task, Kernel};
use os::mm::{AddressSpace, PAGE_SIZE};
use os::syscall::{
    sys_get_time, sys_task_info, sys_write, sys_yield, syscall, SyscallOutcome, SYSCALL_EXIT, SYSCALL_GET_TIME,
    SYSCALL_MMAP, SYSCALL_MUNMAP, SYSCALL_SBRK, SYSCALL_TASK_INFO, SYSCALL_WRITE, SYSCALL_YIELD, FD_STDOUT,
};
use os::task::{TaskContext, TaskControlBlock, TaskStatus};

const BUF: usize = 0x2000_0000;

fn kernel_with_tasks(n: usize) -> Kernel {
    let mut k = Kernel::new(100, 164);
    for i in 0..n {
        let mut t = TaskControlBlock::new(TaskContext { ra: i + 1, sp: 0 }, 2, AddressSpace::new(), 0x8000_0000);
        t.make_ready();
        add_task(&mut k, t);
    }
    assert!(k.run_next(1));
    k
}

fn ret(o: SyscallOutcome) -> isize {
    match o {
        SyscallOutcome::Return(x) => x,
        _ => panic!("expected a plain return value"),
    }
}

#[test]
fn dispatcher_counts_before_handling() {
    let mut k = kernel_with_tasks(1);
    assert_eq!(ret(syscall(&mut k, SYSCALL_MMAP, [BUF, 2 * PAGE_SIZE, 3], 1_000)), 0);
    let o = syscall(&mut k, SYSCALL_TASK_INFO, [BUF, 0, 0], 51_000);
    match o {
        SyscallOutcome::CopyOut(c) => {
            let info = TaskInfo::from_bytes(&c.bytes).unwrap();
            assert_eq!(info.status(), TaskStatus::Running);
            assert_eq!(info.syscall_times()[SYSCALL_MMAP], 1);
            assert_eq!(info.syscall_times()[SYSCALL_TASK_INFO], 1);
            assert_eq!(info.time(), 50);
            assert_eq!(c.segments.len(), 1);
            assert_eq!(c.segments[0].len, TASK_INFO_SIZE);
        }
        _ => panic!("expected a copy to user memory"),
    }
}

#[test]
fn get_time_serialises_clock() {
    let mut k = kernel_with_tasks(1);
    assert_eq!(ret(syscall(&mut k, SYSCALL_MMAP, [BUF, PAGE_SIZE, 3], 0)), 0);
    match syscall(&mut k, SYSCALL_GET_TIME, [BUF + PAGE_SIZE - 8, 0, 0], 12_000_345) {
        SyscallOutcome::Return(x) => assert_eq!(x, -1),
        _ => panic!("buffer crosses into an unmapped page"),
    }
    match syscall(&mut k, SYSCALL_GET_TIME, [BUF + 8, 0, 0], 12_000_345) {
        SyscallOutcome::CopyOut(c) => {
            assert_eq!(TimeVal::from_bytes(&c.bytes), Some(TimeVal { sec: 12, usec: 345 }));
            assert_eq!(c.segments[0].offset, 8);
        }
        _ => panic!("expected a copy to user memory"),
    }
    let c = sys_get_time(&k, BUF, 1_500_000).unwrap();
    assert_eq!(TimeVal::from_bytes(&c.bytes), Some(TimeVal { sec: 1, usec: 500_000 }));
}

#[test]
fn task_info_on_unmapped_buffer_fails() {
    let k = kernel_with_tasks(1);
    assert!(sys_task_info(&k, BUF, 10).is_none());
}

#[test]
fn mmap_munmap_sbrk_through_dispatcher() {
    let mut k = kernel_with_tasks(1);
    assert_eq!(ret(syscall(&mut k, SYSCALL_MMAP, [BUF + 1, PAGE_SIZE, 3], 0)), -1);
    assert_eq!(ret(syscall(&mut k, SYSCALL_MMAP, [BUF, PAGE_SIZE, 0], 0)), -1);
    assert_eq!(ret(syscall(&mut k, SYSCALL_MMAP, [BUF, PAGE_SIZE, 3], 0)), 0);
    assert_eq!(ret(syscall(&mut k, SYSCALL_MUNMAP, [BUF, 2 * PAGE_SIZE, 0], 0)), -1);
    assert_eq!(ret(syscall(&mut k, SYSCALL_MUNMAP, [BUF, PAGE_SIZE, 0], 0)), 0);
    assert_eq!(ret(syscall(&mut k, SYSCALL_SBRK, [16, 0, 0], 0)), 0x8000_0000);
    assert_eq!(ret(syscall(&mut k, SYSCALL_SBRK, [(-32i32) as u32 as usize, 0, 0], 0)), -1);
    assert_eq!(k.current_task().unwrap().syscall_times[SYSCALL_MMAP], 3);
    assert_eq!(k.current_task().unwrap().syscall_times[SYSCALL_SBRK], 2);
}

#[test]
fn write_hands_back_pieces_to_print() {
    let mut k = kernel_with_tasks(1);
    assert_eq!(ret(syscall(&mut k, SYSCALL_MMAP, [BUF, PAGE_SIZE, 1], 0)), 0);
    match syscall(&mut k, SYSCALL_WRITE, [FD_STDOUT, BUF + 4, 5], 0) {
        SyscallOutcome::Print(segs, n) => {
            assert_eq!(n, 5);
            assert_eq!(segs.len(), 1);
            assert_eq!((segs[0].offset, segs[0].len), (4, 5));
        }
        _ => panic!("expected output"),
    }
    assert!(sys_write(&k, FD_STDOUT, BUF + PAGE_SIZE, 1).is_none());
}

#[test]
fn yield_and_exit_switch_tasks() {
    let mut k = kernel_with_tasks(2);
    assert_eq!(k.current_task().unwrap().task_cx.ra, 1);
    assert_eq!(ret(syscall(&mut k, SYSCALL_YIELD, [0, 0, 0], 2_000)), 0);
    assert_eq!(k.current_task().unwrap().task_cx.ra, 2);
    assert_eq!(sys_yield(&mut k, 3), 0);
    assert_eq!(k.current_task().unwrap().task_cx.ra, 1);
    match syscall(&mut k, SYSCALL_EXIT, [0, 0, 0], 4_000) {
        SyscallOutcome::Exited(more) => assert!(more),
        _ => panic!("expected exit"),
    }
    assert_eq!(k.current_task().unwrap().task_cx.ra, 2);
    match syscall(&mut k, SYSCALL_EXIT, [0, 0, 0], 5_000) {
        SyscallOutcome::Exited(more) => assert!(!more),
        _ => panic!("expected exit"),
    }
    assert!(k.current_task().is_none());
}
