//! System call handlers and the dispatcher.
use vstd::prelude::*;
use crate::kernel::{Kernel, same_but_memory};
use crate::mm::{PAGE_SIZE, PTE_R, PTE_V, PTE_W, Segment, page_of, flags_of_port, map_ok, mapped_fresh, unmap_ok, unmapped, buffer_faults, pieces_of, translated_byte_buffer};
use crate::info::{TimeVal, TaskInfo, time_val_bytes, task_info_bytes};
use crate::task::{TaskStatus, counted};

verus! {

/// write syscall
pub const SYSCALL_WRITE: usize = 64;
/// exit syscall
pub const SYSCALL_EXIT: usize = 93;
/// yield syscall
pub const SYSCALL_YIELD: usize = 124;
/// gettime syscall
pub const SYSCALL_GET_TIME: usize = 169;
/// sbrk syscall
pub const SYSCALL_SBRK: usize = 214;
/// munmap syscall
pub const SYSCALL_MUNMAP: usize = 215;
/// mmap syscall
pub const SYSCALL_MMAP: usize = 222;
/// taskinfo syscall
pub const SYSCALL_TASK_INFO: usize = 410;

/// The only file descriptor `write` accepts.
pub const FD_STDOUT: usize = 1;

/// Flags of heap pages: valid, readable, writable.
pub const HEAP_FLAGS: u8 = PTE_V + PTE_R + PTE_W;

/// A permission mask for mmap: no bit above bit 2, and at least one of
/// read, write, execute.
pub open spec fn port_valid(port: usize) -> bool {
    0 < port < 8
}

/// The number of the first page boundary at or above address `a`.
pub open spec fn page_ceil(a: int) -> int {
    a / PAGE_SIZE as int + if a % PAGE_SIZE as int != 0 { 1int } else { 0int }
}

/// The running task's memory and frame pool are as before.
pub open spec fn memory_kept(k0: &Kernel, k1: &Kernel) -> bool {
    &&& k1.current_view() == k0.current_view()
    &&& k1.frame_pool() == k0.frame_pool()
}

/// When `mmap(start, len, port)` succeeds.
pub open spec fn mmap_ok(k: &Kernel, start: usize, len: usize, port: usize) -> bool {
    &&& start % PAGE_SIZE == 0
    &&& port_valid(port)
    &&& (len == 0 || (start + len <= usize::MAX && map_ok(
        k.current_view(),
        k.frame_pool(),
        page_of(start as int) as usize,
        page_ceil(start + len) as usize,
    )))
}

/// When `munmap(start, len)` succeeds.
pub open spec fn munmap_ok(k: &Kernel, start: usize, len: usize) -> bool {
    &&& start % PAGE_SIZE == 0
    &&& (len == 0 || (start + len <= usize::MAX && unmap_ok(
        k.current_view(),
        page_of(start as int) as usize,
        page_ceil(start + len) as usize,
    )))
}

fn ceil_page(a: usize) -> (r: usize)
    ensures
        r == page_ceil(a as int),
{
    if a % PAGE_SIZE != 0 {
        a / PAGE_SIZE + 1
    } else {
        a / PAGE_SIZE
    }
}

/// Maps `[start, start + len)` into the running task with permissions
/// `port` (bit 0 read, bit 1 write, bit 2 execute), each page backed by a
/// new frame. Returns 0 on success and -1 on a misaligned `start`, an
/// invalid `port`, a page of the range already mapped, or too few frames;
/// a failed call changes nothing. A zero length maps nothing and succeeds.
pub fn sys_mmap(k: &mut Kernel, start: usize, len: usize, port: usize) -> (r: isize)
    requires
        old(k).wf(),
        old(k).running().is_some(),
    ensures
        final(k).wf(),
        final(k).ready() == old(k).ready(),
        final(k).running().is_some(),
        same_but_memory(old(k).running().unwrap(), final(k).running().unwrap()),
        final(k).running().unwrap().program_brk == old(k).running().unwrap().program_brk,
        r == (if mmap_ok(old(k), start, len, port) { 0isize } else { -1isize }),
        (r == -1 || len == 0) ==> memory_kept(old(k), final(k)),
        (r == 0 && len > 0) ==> mapped_fresh(
            old(k).current_view(),
            final(k).current_view(),
            old(k).frame_pool(),
            final(k).frame_pool(),
            page_of(start as int) as usize,
            page_ceil(start + len) as usize,
            flags_of_port(port),
        ),
{
    if start % PAGE_SIZE != 0 {
        return -1;
    }
    if port >= 8 || port == 0 {
        return -1;
    }
    if len == 0 {
        return 0;
    }
    let end = match start.checked_add(len) {
        Some(e) => e,
        None => {
            return -1;
        },
    };
    let lo = start / PAGE_SIZE;
    let hi = ceil_page(end);
    let flags = (2 * port + 1) as u8;
    if k.map_current(lo, hi, flags) {
        0
    } else {
        -1
    }
}

/// Unmaps `[start, start + len)` from the running task and frees its
/// frames. Returns 0 on success and -1 on a misaligned `start` or when a
/// page of the range is not mapped; a failed call changes nothing.
pub fn sys_munmap(k: &mut Kernel, start: usize, len: usize) -> (r: isize)
    requires
        old(k).wf(),
        old(k).running().is_some(),
    ensures
        final(k).wf(),
        final(k).ready() == old(k).ready(),
        final(k).running().is_some(),
        same_but_memory(old(k).running().unwrap(), final(k).running().unwrap()),
        final(k).running().unwrap().program_brk == old(k).running().unwrap().program_brk,
        r == (if munmap_ok(old(k), start, len) { 0isize } else { -1isize }),
        (r == -1 || len == 0) ==> memory_kept(old(k), final(k)),
        (r == 0 && len > 0) ==> unmapped(
            old(k).current_view(),
            final(k).current_view(),
            old(k).frame_pool(),
            final(k).frame_pool(),
            page_of(start as int) as usize,
            page_ceil(start + len) as usize,
        ),
        (r == 0 && len > 0) ==> forall|v: usize|
            #[trigger] crate::mm::in_range(v, page_of(start as int) as usize, page_ceil(start + len) as usize)
            ==> final(k).frame_pool().is_free(old(k).current_view()[v].0),
{
    if start % PAGE_SIZE != 0 {
        return -1;
    }
    if len == 0 {
        return 0;
    }
    let end = match start.checked_add(len) {
        Some(e) => e,
        None => {
            return -1;
        },
    };
    let lo = start / PAGE_SIZE;
    let hi = ceil_page(end);
    if k.unmap_current(lo, hi) {
        proof {
            let m0 = old(k).current_view();
            assert forall|v: usize| #[trigger] crate::mm::in_range(v, lo, hi)
                implies k.frame_pool().is_free(m0[v].0) by {
                assert(m0.contains_key(v));
                assert(m0[v].0 < old(k).frame_pool().frame_end());
            }
        }
        0
    } else {
        -1
    }
}

/// The program break asked for by `sbrk(size)`.
pub open spec fn requested_brk(k: &Kernel, size: i32) -> int {
    k.running().unwrap().program_brk + size
}

/// When `sbrk(size)` succeeds: the new break stays within the heap's base
/// and the address range, and the heap pages it adds can be mapped or the
/// ones it drops are mapped.
pub open spec fn sbrk_ok(k: &Kernel, size: i32) -> bool {
    let t = k.running().unwrap();
    let nb = requested_brk(k, size);
    let old_top = page_ceil(t.program_brk as int);
    let new_top = page_ceil(nb);
    &&& t.heap_bottom <= nb <= usize::MAX
    &&& new_top > old_top ==> map_ok(k.current_view(), k.frame_pool(), old_top as usize, new_top as usize)
    &&& new_top < old_top ==> unmap_ok(k.current_view(), new_top as usize, old_top as usize)
}

/// Moves the running task's program break by `size` bytes, mapping or
/// unmapping the heap pages `[page_ceil(brk), page_ceil(new_brk))` between
/// the two. Returns the previous break, or -1 when the new break would fall
/// below the heap's base or out of the address range, or when the pages
/// cannot be mapped or unmapped; a failed call changes nothing.
pub fn sys_sbrk(k: &mut Kernel, size: i32) -> (r: isize)
    requires
        old(k).wf(),
        old(k).running().is_some(),
    ensures
        final(k).wf(),
        final(k).ready() == old(k).ready(),
        final(k).running().is_some(),
        same_but_memory(old(k).running().unwrap(), final(k).running().unwrap()),
        r == (if sbrk_ok(old(k), size) { old(k).running().unwrap().program_brk as isize } else { -1isize }),
        !sbrk_ok(old(k), size) ==> memory_kept(old(k), final(k))
            && final(k).running().unwrap().program_brk == old(k).running().unwrap().program_brk,
        sbrk_ok(old(k), size) ==> final(k).running().unwrap().program_brk == requested_brk(old(k), size),
        ({
            let old_top = page_ceil(old(k).running().unwrap().program_brk as int);
            let new_top = page_ceil(requested_brk(old(k), size));
            &&& (sbrk_ok(old(k), size) && new_top > old_top) ==> mapped_fresh(
                old(k).current_view(),
                final(k).current_view(),
                old(k).frame_pool(),
                final(k).frame_pool(),
                old_top as usize,
                new_top as usize,
                HEAP_FLAGS,
            )
            &&& (sbrk_ok(old(k), size) && new_top < old_top) ==> unmapped(
                old(k).current_view(),
                final(k).current_view(),
                old(k).frame_pool(),
                final(k).frame_pool(),
                new_top as usize,
                old_top as usize,
            )
            &&& (sbrk_ok(old(k), size) && new_top == old_top) ==> memory_kept(old(k), final(k))
        }),
{
    let (old_brk, bottom) = match k.current_task() {
        Some(t) => (t.program_brk, t.heap_bottom),
        None => {
            return -1;
        },
    };
    let new_brk: usize;
    if size < 0 {
        let dec = (-(size as i64)) as usize;
        if dec > old_brk - bottom {
            return -1;
        }
        new_brk = old_brk - dec;
    } else {
        let inc = size as usize;
        if inc > usize::MAX - old_brk {
            return -1;
        }
        new_brk = old_brk + inc;
    }
    let old_top = ceil_page(old_brk);
    let new_top = ceil_page(new_brk);
    if new_top > old_top {
        if !k.map_current(old_top, new_top, HEAP_FLAGS) {
            return -1;
        }
    } else if new_top < old_top {
        if !k.unmap_current(new_top, old_top) {
            return -1;
        }
    }
    k.set_brk(new_brk);
    old_brk as isize
}

/// The running task gives up the processor; the scheduler picks the next
/// task. Returns 0.
pub fn sys_yield(k: &mut Kernel, now_ms: usize) -> (r: isize)
    requires
        old(k).wf(),
        old(k).running().is_some(),
    ensures
        final(k).wf(),
        final(k).running().is_some(),
        r == 0,
        exists|t: crate::task::TaskControlBlock| crate::kernel::with_status(old(k).running().unwrap(), t, crate::task::TaskStatus::Ready)
            && #[trigger] crate::kernel::scheduled(old(k).ready().push(t), final(k).running(), final(k).ready(), now_ms),
{
    k.suspend_current_and_run_next(now_ms);
    0
}

/// The running task exits with `_exit_code`; its memory is freed and the
/// scheduler picks the next task. Returns whether any task now runs.
pub fn sys_exit(k: &mut Kernel, _exit_code: i32, now_ms: usize) -> (r: bool)
    requires
        old(k).wf(),
        old(k).running().is_some(),
    ensures
        final(k).wf(),
        r == (old(k).ready().len() > 0),
        crate::kernel::scheduled(old(k).ready(), final(k).running(), final(k).ready(), now_ms),
        forall|p: usize| #[trigger] old(k).frame_pool().is_free(p) ==> final(k).frame_pool().is_free(p),
        forall|v: usize| #[trigger] old(k).current_view().contains_key(v) ==> final(k).frame_pool().is_free(old(k).current_view()[v].0),
{
    k.exit_current_and_run_next(now_ms)
}

/// Bytes to copy into user memory: `bytes` in order across `segments`.
pub struct UserCopy {
    pub segments: Vec<Segment>,
    pub bytes: Vec<u8>,
}

/// Milliseconds the running task has run by `now_ms`.
pub open spec fn elapsed_ms(start: Option<usize>, now_ms: usize) -> usize {
    match start {
        Some(s) => if now_ms >= s { (now_ms - s) as usize } else { 0 },
        None => 0,
    }
}

/// The current time as a `TimeVal` for user buffer `ts`, `now_us`
/// microseconds after the clock's origin: the record's bytes and the pieces
/// of the buffer they go to. `None` when the buffer is not mapped.
pub fn sys_get_time(k: &Kernel, ts: usize, now_us: usize) -> (r: Option<UserCopy>)
    requires
        k.wf(),
        k.running().is_some(),
    ensures
        r.is_none() ==> buffer_faults(k.current_view(), ts, 16),
        r.is_some() ==> pieces_of(k.current_view(), ts, 16, r.unwrap().segments@),
        r.is_some() ==> r.unwrap().bytes@ == time_val_bytes((now_us / 1_000_000) as nat, (now_us % 1_000_000) as nat),
{
    let t = match k.current_task() {
        Some(t) => t,
        None => {
            return None;
        },
    };
    let time_val = TimeVal::from_micros(now_us);
    let serialized = time_val.to_bytes();
    match translated_byte_buffer(&t.memory_set, ts, 16) {
        Some(segments) => Some(UserCopy { segments, bytes: serialized }),
        None => None,
    }
}

/// A `TaskInfo` snapshot of the running task at `now_ms` for user buffer
/// `ti`: status Running, its syscall counters, and the milliseconds since it
/// first ran. `None` when the buffer is not mapped.
pub fn sys_task_info(k: &Kernel, ti: usize, now_ms: usize) -> (r: Option<UserCopy>)
    requires
        k.wf(),
        k.running().is_some(),
    ensures
        r.is_none() ==> buffer_faults(k.current_view(), ti, crate::info::TASK_INFO_SIZE),
        r.is_some() ==> pieces_of(k.current_view(), ti, crate::info::TASK_INFO_SIZE, r.unwrap().segments@),
        r.is_some() ==> r.unwrap().bytes@ == task_info_bytes(
            TaskStatus::Running,
            k.running().unwrap().syscall_times@,
            elapsed_ms(k.running().unwrap().start_time, now_ms) as nat,
        ),
{
    let t = match k.current_task() {
        Some(t) => t,
        None => {
            return None;
        },
    };
    let time = match t.start_time {
        Some(s) => if now_ms >= s { now_ms - s } else { 0 },
        None => 0,
    };
    let info = TaskInfo::new(TaskStatus::Running, t.syscall_times.clone(), time);
    let serialized = info.to_bytes();
    match translated_byte_buffer(&t.memory_set, ti, crate::info::TASK_INFO_SIZE) {
        Some(segments) => Some(UserCopy { segments, bytes: serialized }),
        None => None,
    }
}

/// What the dispatcher leaves to its caller.
pub enum SyscallOutcome {
    /// Hand this value back to the calling task.
    Return(isize),
    /// Copy the bytes into the calling task's memory, then hand back 0.
    CopyOut(UserCopy),
    /// Print the user bytes held by these pieces, in order, then hand back
    /// the value.
    Print(Vec<Segment>, isize),
    /// The calling task exited; whether another task now runs.
    Exited(bool),
}

/// The system calls the dispatcher routes.
pub open spec fn known_syscall(id: usize) -> bool {
    id == SYSCALL_WRITE || id == SYSCALL_EXIT || id == SYSCALL_YIELD || id == SYSCALL_GET_TIME
        || id == SYSCALL_TASK_INFO || id == SYSCALL_MMAP || id == SYSCALL_MUNMAP || id == SYSCALL_SBRK
}

/// Whether the dispatcher routes system call `id`.
pub fn is_known_syscall(id: usize) -> (r: bool)
    ensures
        r == known_syscall(id),
{
    id == SYSCALL_WRITE || id == SYSCALL_EXIT || id == SYSCALL_YIELD || id == SYSCALL_GET_TIME
        || id == SYSCALL_TASK_INFO || id == SYSCALL_MMAP || id == SYSCALL_MUNMAP || id == SYSCALL_SBRK
}

/// What a call that copies a record to user buffer `va` hands back: the
/// record's bytes and the buffer's pieces, or -1 when the buffer is not mapped.
pub open spec fn copy_outcome(m: Map<usize, (usize, u8)>, va: usize, bytes: Seq<u8>, r: SyscallOutcome) -> bool {
    match r {
        SyscallOutcome::CopyOut(c) => pieces_of(m, va, bytes.len() as usize, c.segments@) && c.bytes@ == bytes,
        SyscallOutcome::Return(x) => x == -1 && buffer_faults(m, va, bytes.len() as usize),
        _ => false,
    }
}

/// The single entry point of system calls from the running task, at time
/// `now_us`: counts the call for the task, then routes it by number. An
/// unknown number, or a write to a descriptor other than standard output,
/// breaks the calling convention and is ruled out by the precondition.
pub fn syscall(k: &mut Kernel, syscall_id: usize, args: [usize; 3], now_us: usize) -> (r: SyscallOutcome)
    requires
        old(k).wf(),
        old(k).running().is_some(),
        known_syscall(syscall_id),
        syscall_id == SYSCALL_WRITE ==> args[0] == FD_STDOUT,
    ensures
        final(k).wf(),
        syscall_id == SYSCALL_MMAP ==> r == SyscallOutcome::Return(
            if mmap_ok(old(k), args[0], args[1], args[2]) { 0isize } else { -1isize }),
        syscall_id == SYSCALL_MUNMAP ==> r == SyscallOutcome::Return(
            if munmap_ok(old(k), args[0], args[1]) { 0isize } else { -1isize }),
        syscall_id == SYSCALL_SBRK ==> r == SyscallOutcome::Return(
            if sbrk_ok(old(k), args[0] as i32) { old(k).running().unwrap().program_brk as isize } else { -1isize }),
        syscall_id == SYSCALL_YIELD ==> r == SyscallOutcome::Return(0),
        syscall_id == SYSCALL_EXIT ==> r == SyscallOutcome::Exited(old(k).ready().len() > 0),
        syscall_id == SYSCALL_GET_TIME ==> copy_outcome(old(k).current_view(), args[0],
            time_val_bytes((now_us / 1_000_000) as nat, (now_us % 1_000_000) as nat), r),
        syscall_id == SYSCALL_TASK_INFO ==> copy_outcome(old(k).current_view(), args[0],
            task_info_bytes(
                TaskStatus::Running,
                counted(old(k).running().unwrap().syscall_times@, syscall_id),
                elapsed_ms(old(k).running().unwrap().start_time, now_us / 1000) as nat,
            ), r),
        syscall_id == SYSCALL_WRITE ==> match r {
            SyscallOutcome::Print(segments, n) => n == args[2] as isize && pieces_of(old(k).current_view(), args[1], args[2], segments@),
            SyscallOutcome::Return(x) => x == -1 && buffer_faults(old(k).current_view(), args[1], args[2]),
            _ => false,
        },
        syscall_id != SYSCALL_EXIT && syscall_id != SYSCALL_YIELD ==> final(k).running().is_some(),
{
    k.count_syscall(syscall_id);
    let now_ms = now_us / 1000;
    if syscall_id == SYSCALL_WRITE {
        match sys_write(k, args[0], args[1], args[2]) {
            Some(segments) => SyscallOutcome::Print(segments, args[2] as isize),
            None => SyscallOutcome::Return(-1),
        }
    } else if syscall_id == SYSCALL_EXIT {
        SyscallOutcome::Exited(sys_exit(k, args[0] as i32, now_ms))
    } else if syscall_id == SYSCALL_YIELD {
        SyscallOutcome::Return(sys_yield(k, now_ms))
    } else if syscall_id == SYSCALL_GET_TIME {
        let r = sys_get_time(k, args[0], now_us);
        proof {
            crate::info::lemma_le_bytes_len((now_us / 1_000_000) as nat, 8);
            crate::info::lemma_le_bytes_len((now_us % 1_000_000) as nat, 8);
        }
        match r {
            Some(c) => SyscallOutcome::CopyOut(c),
            None => SyscallOutcome::Return(-1),
        }
    } else if syscall_id == SYSCALL_TASK_INFO {
        let r = sys_task_info(k, args[0], now_ms);
        proof {
            crate::info::lemma_task_info_len(TaskStatus::Running, k.running().unwrap().syscall_times@,
                elapsed_ms(k.running().unwrap().start_time, now_ms) as nat);
        }
        match r {
            Some(c) => SyscallOutcome::CopyOut(c),
            None => SyscallOutcome::Return(-1),
        }
    } else if syscall_id == SYSCALL_MMAP {
        SyscallOutcome::Return(sys_mmap(k, args[0], args[1], args[2]))
    } else if syscall_id == SYSCALL_MUNMAP {
        SyscallOutcome::Return(sys_munmap(k, args[0], args[1]))
    } else {
        SyscallOutcome::Return(sys_sbrk(k, args[0] as i32))
    }
}

/// Writes `len` bytes of user buffer `buf` to descriptor `fd`, which must be
/// standard output: the pieces of the buffer to print, in order, or `None`
/// when the buffer is not mapped.
pub fn sys_write(k: &Kernel, fd: usize, buf: usize, len: usize) -> (r: Option<Vec<Segment>>)
    requires
        k.wf(),
        k.running().is_some(),
        fd == FD_STDOUT,
    ensures
        r.is_none() ==> buffer_faults(k.current_view(), buf, len),
        r.is_some() ==> pieces_of(k.current_view(), buf, len, r.unwrap()@),
{
    match k.current_task() {
        Some(t) => translated_byte_buffer(&t.memory_set, buf, len),
        None => None,
    }
}

} // verus!
