use os::kernel::{add_task, Kernel};
use os::mm::{translated_byte_buffer, AddressSpace, FrameAllocator, PAGE_SIZE};
use os::syscall::{sys_mmap, sys_munmap, sys_sbrk};
use os::task::{TaskContext, TaskControlBlock};

const BASE: usize = 0x1000_0000;

fn kernel_with_task(frames: usize) -> Kernel {
    let mut k = Kernel::new(100, 100 + frames);
    let mut t = TaskControlBlock::new(TaskContext { ra: 0, sp: 0 }, 2, AddressSpace::new(), 0x8000_0000);
    t.make_ready();
    add_task(&mut k, t);
    assert!(k.run_next(0));
    k
}

fn mapped_pages(k: &Kernel) -> usize {
    k.current_task().unwrap().memory_set.len()
}

fn flags_of(k: &Kernel, vpn: usize) -> Option<u8> {
    k.current_task().unwrap().memory_set.translate(vpn).map(|e| e.flags)
}

#[test]
fn frame_allocator_hands_out_and_takes_back() {
    let mut f = FrameAllocator::new(10, 12);
    assert_eq!(f.frames_left(), 2);
    let a = f.alloc_frame().unwrap();
    let b = f.alloc_frame().unwrap();
    assert_ne!(a, b);
    assert!(f.alloc_frame().is_none());
    f.dealloc_frame(a);
    f.dealloc_frame(a);
    f.dealloc_frame(50);
    assert_eq!(f.frames_left(), 1);
    assert_eq!(f.alloc_frame(), Some(a));
}

#[test]
fn mmap_misaligned_start_fails() {
    let mut k = kernel_with_task(16);
    for len in [0usize, 1, PAGE_SIZE, 3 * PAGE_SIZE] {
        for port in [0usize, 1, 3, 7, 8] {
            assert_eq!(sys_mmap(&mut k, BASE + 1, len, port), -1);
            assert_eq!(sys_mmap(&mut k, BASE + PAGE_SIZE - 1, len, port), -1);
        }
    }
    assert_eq!(mapped_pages(&k), 0);
}

#[test]
fn mmap_port_validation() {
    let mut k = kernel_with_task(16);
    for port in [0usize, 8, 9, 15, 0x10, usize::MAX] {
        assert_eq!(sys_mmap(&mut k, BASE, PAGE_SIZE, port), -1);
    }
    assert_eq!(mapped_pages(&k), 0);
    for port in 1usize..=7 {
        let start = BASE + port * PAGE_SIZE;
        assert_eq!(sys_mmap(&mut k, start, PAGE_SIZE, port), 0);
        assert_eq!(flags_of(&k, start / PAGE_SIZE), Some((2 * port + 1) as u8));
    }
    assert_eq!(mapped_pages(&k), 7);
}

#[test]
fn mmap_zero_length_maps_nothing() {
    let mut k = kernel_with_task(4);
    assert_eq!(sys_mmap(&mut k, BASE, 0, 3), 0);
    assert_eq!(mapped_pages(&k), 0);
    assert_eq!(k.current_task().unwrap().memory_set.translate(BASE / PAGE_SIZE), None);
}

#[test]
fn mmap_rounds_length_up_to_pages() {
    let mut k = kernel_with_task(8);
    assert_eq!(sys_mmap(&mut k, BASE, PAGE_SIZE + 1, 1), 0);
    assert_eq!(mapped_pages(&k), 2);
    assert_eq!(flags_of(&k, BASE / PAGE_SIZE), Some(3));
    assert_eq!(flags_of(&k, BASE / PAGE_SIZE + 1), Some(3));
    assert_eq!(flags_of(&k, BASE / PAGE_SIZE + 2), None);
}

#[test]
fn mmap_over_mapped_page_fails_whole() {
    let mut k = kernel_with_task(8);
    assert_eq!(sys_mmap(&mut k, BASE + PAGE_SIZE, PAGE_SIZE, 3), 0);
    assert_eq!(sys_mmap(&mut k, BASE, 3 * PAGE_SIZE, 7), -1);
    assert_eq!(mapped_pages(&k), 1);
    assert_eq!(flags_of(&k, BASE / PAGE_SIZE), None);
    assert_eq!(flags_of(&k, BASE / PAGE_SIZE + 1), Some(7));
}

#[test]
fn mmap_without_enough_frames_fails_whole() {
    let mut k = kernel_with_task(2);
    assert_eq!(sys_mmap(&mut k, BASE, 3 * PAGE_SIZE, 3), -1);
    assert_eq!(mapped_pages(&k), 0);
    assert_eq!(sys_mmap(&mut k, BASE, 2 * PAGE_SIZE, 3), 0);
    assert_eq!(mapped_pages(&k), 2);
}

#[test]
fn mmap_end_past_address_range_fails() {
    let mut k = kernel_with_task(8);
    assert_eq!(sys_mmap(&mut k, usize::MAX - PAGE_SIZE + 1, 2 * PAGE_SIZE, 3), -1);
}

#[test]
fn munmap_with_unmapped_page_fails_and_keeps_mappings() {
    let mut k = kernel_with_task(8);
    assert_eq!(sys_mmap(&mut k, BASE, 2 * PAGE_SIZE, 3), 0);
    assert_eq!(sys_munmap(&mut k, BASE, 3 * PAGE_SIZE), -1);
    assert_eq!(mapped_pages(&k), 2);
    assert_eq!(flags_of(&k, BASE / PAGE_SIZE), Some(7));
    assert_eq!(flags_of(&k, BASE / PAGE_SIZE + 1), Some(7));
}

#[test]
fn munmap_removes_range_and_frees_frames() {
    let mut k = kernel_with_task(3);
    assert_eq!(sys_mmap(&mut k, BASE, 3 * PAGE_SIZE, 1), 0);
    assert_eq!(sys_mmap(&mut k, BASE + 8 * PAGE_SIZE, PAGE_SIZE, 1), -1);
    assert_eq!(sys_munmap(&mut k, BASE + PAGE_SIZE, PAGE_SIZE), 0);
    assert_eq!(mapped_pages(&k), 2);
    assert_eq!(flags_of(&k, BASE / PAGE_SIZE + 1), None);
    assert_eq!(sys_mmap(&mut k, BASE + 8 * PAGE_SIZE, PAGE_SIZE, 1), 0);
}

#[test]
fn munmap_misaligned_fails() {
    let mut k = kernel_with_task(8);
    assert_eq!(sys_mmap(&mut k, BASE, PAGE_SIZE, 1), 0);
    assert_eq!(sys_munmap(&mut k, BASE + 12, PAGE_SIZE), -1);
    assert_eq!(mapped_pages(&k), 1);
    assert_eq!(sys_munmap(&mut k, BASE, 0), 0);
    assert_eq!(mapped_pages(&k), 1);
}

#[test]
fn sbrk_grows_and_shrinks_heap() {
    let mut k = kernel_with_task(8);
    let bottom = 0x8000_0000usize;
    assert_eq!(sys_sbrk(&mut k, 100), bottom as isize);
    assert_eq!(k.current_task().unwrap().program_brk, bottom + 100);
    assert_eq!(flags_of(&k, bottom / PAGE_SIZE), Some(7));
    assert_eq!(sys_sbrk(&mut k, PAGE_SIZE as i32), (bottom + 100) as isize);
    assert_eq!(mapped_pages(&k), 2);
    assert_eq!(sys_sbrk(&mut k, -(PAGE_SIZE as i32)), (bottom + 100 + PAGE_SIZE) as isize);
    assert_eq!(mapped_pages(&k), 1);
    assert_eq!(sys_sbrk(&mut k, -101), -1);
    assert_eq!(sys_sbrk(&mut k, -100), (bottom + 100) as isize);
    assert_eq!(mapped_pages(&k), 0);
    assert_eq!(k.current_task().unwrap().program_brk, bottom);
}

#[test]
fn sbrk_without_frames_fails() {
    let mut k = kernel_with_task(1);
    assert_eq!(sys_sbrk(&mut k, (2 * PAGE_SIZE) as i32), -1);
    assert_eq!(k.current_task().unwrap().program_brk, 0x8000_0000);
    assert_eq!(mapped_pages(&k), 0);
}

#[test]
fn exit_returns_frames() {
    let mut k = kernel_with_task(2);
    assert_eq!(sys_mmap(&mut k, BASE, 2 * PAGE_SIZE, 3), 0);
    let mut t = TaskControlBlock::new(TaskContext { ra: 9, sp: 0 }, 2, AddressSpace::new(), 0);
    t.make_ready();
    add_task(&mut k, t);
    assert!(k.exit_current_and_run_next(3));
    assert_eq!(k.current_task().unwrap().task_cx.ra, 9);
    assert_eq!(sys_mmap(&mut k, BASE, 2 * PAGE_SIZE, 3), 0);
}

#[test]
fn translation_splits_at_page_boundaries() {
    let mut k = kernel_with_task(4);
    assert_eq!(sys_mmap(&mut k, BASE, 2 * PAGE_SIZE, 3), 0);
    let space = &k.current_task().unwrap().memory_set;
    let p0 = space.translate(BASE / PAGE_SIZE).unwrap().ppn;
    let p1 = space.translate(BASE / PAGE_SIZE + 1).unwrap().ppn;
    let segs = translated_byte_buffer(space, BASE + PAGE_SIZE - 10, 16).unwrap();
    assert_eq!(segs.len(), 2);
    assert_eq!((segs[0].ppn, segs[0].offset, segs[0].len), (p0, PAGE_SIZE - 10, 10));
    assert_eq!((segs[1].ppn, segs[1].offset, segs[1].len), (p1, 0, 6));
    assert!(translated_byte_buffer(space, BASE + 2 * PAGE_SIZE - 4, 8).is_none());
    assert_eq!(translated_byte_buffer(space, BASE, 0).unwrap().len(), 0);
}

#[test]
fn frames_are_not_shared_between_tasks() {
    let mut k = Kernel::new(100, 104);
    for ra in [1usize, 2] {
        let mut t = TaskControlBlock::new(TaskContext { ra, sp: 0 }, 2, AddressSpace::new(), 0);
        t.make_ready();
        add_task(&mut k, t);
    }
    assert!(k.run_next(0));
    let mut ppns = Vec::new();
    for _ in 0..2 {
        assert_eq!(sys_mmap(&mut k, BASE, 2 * PAGE_SIZE, 3), 0);
        let space = &k.current_task().unwrap().memory_set;
        for vpn in [BASE / PAGE_SIZE, BASE / PAGE_SIZE + 1] {
            ppns.push(space.translate(vpn).unwrap().ppn);
        }
        k.suspend_current_and_run_next(1);
    }
    ppns.sort();
    ppns.dedup();
    assert_eq!(ppns, vec![100, 101, 102, 103]);
    assert_eq!(sys_mmap(&mut k, BASE + 4 * PAGE_SIZE, PAGE_SIZE, 3), -1);
}
