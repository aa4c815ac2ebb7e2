use os::info::{TaskInfo, TimeVal, TASK_INFO_SIZE};
use os::task::{TaskStatus, MAX_SYSCALL_NUM};

#[test]
fn time_val_round_trip() {
    let t = TimeVal { sec: 12, usec: 345 };
    let bytes = t.to_bytes();
    assert_eq!(bytes.len(), 16);
    assert_eq!(bytes[0], 12);
    assert_eq!(bytes[8], 0x59);
    assert_eq!(bytes[9], 0x01);
    let back = TimeVal::from_bytes(&bytes).unwrap();
    assert_eq!(back.sec, 12);
    assert_eq!(back.usec, 345);
}

#[test]
fn time_val_bytes_are_little_endian() {
    let t = TimeVal { sec: 0x0102_0304_0506_0708, usec: usize::MAX };
    let bytes = t.to_bytes();
    assert_eq!(&bytes[0..8], &[8, 7, 6, 5, 4, 3, 2, 1]);
    assert!(bytes[8..16].iter().all(|b| *b == 0xff));
    assert_eq!(TimeVal::from_bytes(&bytes), Some(t));
}

#[test]
fn time_val_from_micros_splits() {
    let t = TimeVal::from_micros(12_000_345);
    assert_eq!(t, TimeVal { sec: 12, usec: 345 });
}

#[test]
fn time_val_rejects_wrong_length() {
    assert_eq!(TimeVal::from_bytes(&vec![0u8; 15]), None);
    assert_eq!(TimeVal::from_bytes(&vec![0u8; 17]), None);
}

#[test]
fn task_info_round_trip() {
    let mut counts = vec![0u32; MAX_SYSCALL_NUM];
    counts[64] = 3;
    counts[169] = 7;
    counts[410] = 1;
    counts[MAX_SYSCALL_NUM - 1] = u32::MAX;
    let info = TaskInfo::new(TaskStatus::Running, counts.clone(), 999);
    let bytes = info.to_bytes();
    assert_eq!(bytes.len(), TASK_INFO_SIZE);
    let back = TaskInfo::from_bytes(&bytes).unwrap();
    assert_eq!(back.status(), TaskStatus::Running);
    assert_eq!(back.syscall_times(), &counts);
    assert_eq!(back.time(), 999);
}

#[test]
fn task_info_layout() {
    let mut counts = vec![0u32; MAX_SYSCALL_NUM];
    counts[1] = 0x0a0b_0c0d;
    let bytes = TaskInfo::new(TaskStatus::Exited, counts, 0x1234).to_bytes();
    assert_eq!(&bytes[0..4], &[3, 0, 0, 0]);
    assert_eq!(&bytes[8..12], &[0x0d, 0x0c, 0x0b, 0x0a]);
    assert_eq!(&bytes[2004..2008], &[0, 0, 0, 0]);
    assert_eq!(&bytes[2008..2016], &[0x34, 0x12, 0, 0, 0, 0, 0, 0]);
}

#[test]
fn task_info_rejects_bad_tag_and_length() {
    let mut bytes = TaskInfo::new(TaskStatus::Ready, vec![0u32; MAX_SYSCALL_NUM], 1).to_bytes();
    assert!(TaskInfo::from_bytes(&bytes).is_some());
    bytes[0] = 4;
    assert!(TaskInfo::from_bytes(&bytes).is_none());
    assert!(TaskInfo::from_bytes(&vec![0u8; TASK_INFO_SIZE - 1]).is_none());
}
