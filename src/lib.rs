//! Process management and virtual memory core of a small uniprocessor kernel:
//! task control blocks, a stride scheduler, per-task address spaces with
//! mmap/munmap, and the system call dispatcher.

pub mod sync;
pub mod task;
pub mod manager;
pub mod mm;
pub mod kernel;
pub mod syscall;
pub mod info;
