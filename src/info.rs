//! The records copied to user space, with their fixed little-endian layout.
use vstd::prelude::*;
use crate::task::{TaskStatus, MAX_SYSCALL_NUM};

verus! {

/// 256 to the power `n`.
pub open spec fn pow256(n: nat) -> nat
    decreases n,
{
    if n == 0 {
        1
    } else {
        256 * pow256((n - 1) as nat)
    }
}

/// The `n` low bytes of `v`, least significant first.
pub open spec fn le_bytes(v: nat, n: nat) -> Seq<u8>
    decreases n,
{
    if n == 0 {
        Seq::empty()
    } else {
        seq![(v % 256) as u8] + le_bytes(v / 256, (n - 1) as nat)
    }
}

/// The number whose bytes, least significant first, are `s`.
pub open spec fn le_value(s: Seq<u8>) -> nat
    decreases s.len(),
{
    if s.len() == 0 {
        0
    } else {
        s[0] as nat + 256 * le_value(s.drop_first())
    }
}

/// Writing `n` bytes gives `n` bytes.
pub proof fn lemma_le_bytes_len(v: nat, n: nat)
    ensures
        le_bytes(v, n).len() == n,
    decreases n,
{
    if n > 0 {
        lemma_le_bytes_len(v / 256, (n - 1) as nat);
    }
}

/// Reading back `n` bytes written from `v` gives `v`, when `v` fits.
pub proof fn lemma_le_round_trip(v: nat, n: nat)
    requires
        v < pow256(n),
    ensures
        le_value(le_bytes(v, n)) == v,
    decreases n,
{
    lemma_le_bytes_len(v, n);
    if n > 0 {
        let p = pow256((n - 1) as nat);
        assert(v / 256 < p) by (nonlinear_arith)
            requires v < 256 * p;
        lemma_le_round_trip(v / 256, (n - 1) as nat);
        let s = le_bytes(v, n);
        assert(s.drop_first() =~= le_bytes(v / 256, (n - 1) as nat));
        assert(v == (v % 256) + 256 * (v / 256)) by (nonlinear_arith);
    }
}

proof fn lemma_le_value_bound(s: Seq<u8>)
    ensures
        le_value(s) < pow256(s.len()),
    decreases s.len(),
{
    if s.len() > 0 {
        lemma_le_value_bound(s.drop_first());
        let r = le_value(s.drop_first());
        let p = pow256((s.len() - 1) as nat);
        assert(s[0] as nat + 256 * r < 256 * p) by (nonlinear_arith)
            requires r < p, s[0] < 256;
    }
}

/// Appends the `n` low bytes of `v`, least significant first.
fn push_le(out: &mut Vec<u8>, v: u64, n: usize)
    requires
        n <= 8,
    ensures
        final(out)@ == old(out)@ + le_bytes(v as nat, n as nat),
{
    let mut cur: u64 = v;
    let mut i: usize = 0;
    while i < n
        invariant
            i <= n,
            old(out)@ + le_bytes(v as nat, n as nat) == out@ + le_bytes(cur as nat, (n - i) as nat),
        decreases n - i,
    {
        let ghost before = out@;
        let ghost rest = le_bytes(cur as nat / 256, (n - i - 1) as nat);
        out.push((cur % 256) as u8);
        proof {
            assert(le_bytes(cur as nat, (n - i) as nat) == seq![(cur as nat % 256) as u8] + rest);
            assert(out@ + rest =~= before + (seq![(cur as nat % 256) as u8] + rest));
        }
        cur = cur / 256;
        i = i + 1;
    }
    assert(out@ + le_bytes(cur as nat, 0) =~= out@);
}

/// The number held by the `n` bytes of `s` at `off`, least significant first.
fn read_le(s: &Vec<u8>, off: usize, n: usize) -> (r: u64)
    requires
        n <= 8,
        off + n <= s@.len(),
    ensures
        r as nat == le_value(s@.subrange(off as int, off + n)),
{
    let total = s.len();
    let mut acc: u64 = 0;
    let mut j: usize = n;
    proof {
        assert(s@.subrange(off + n, off + n).len() == 0);
    }
    while j > 0
        invariant
            j <= n <= 8,
            total == s@.len(),
            off + n <= s@.len(),
            acc as nat == le_value(s@.subrange(off + j, off + n)),
        decreases j,
    {
        let ghost t = s@.subrange(off + j - 1, off + n);
        proof {
            assert(t.drop_first() =~= s@.subrange(off + j, off + n));
            lemma_le_value_bound(t);
            lemma_pow256_le8(t.len());
        }
        let b = s[off + j - 1];
        acc = acc * 256 + b as u64;
        j = j - 1;
    }
    acc
}

proof fn lemma_pow256_le8(n: nat)
    requires
        n <= 8,
    ensures
        pow256(n) <= 0x1_0000_0000_0000_0000,
{
    reveal_with_fuel(pow256, 9);
}

/// Time as seconds and microseconds.
#[derive(Clone, Copy, Debug, PartialEq, Eq, Structural)]
pub struct TimeVal {
    /// whole seconds
    pub sec: usize,
    /// microseconds within the second (1 second = 1,000,000 microseconds)
    pub usec: usize,
}

/// Bytes of a `TimeVal`: `sec` then `usec`, eight bytes each, little-endian.
pub open spec fn time_val_bytes(sec: nat, usec: nat) -> Seq<u8> {
    le_bytes(sec, 8) + le_bytes(usec, 8)
}

/// The fields a 16-byte buffer encodes, if they fit a machine word.
pub open spec fn decode_time_val(s: Seq<u8>) -> Option<TimeVal> {
    let sec = le_value(s.subrange(0, 8));
    let usec = le_value(s.subrange(8, 16));
    if s.len() == 16 && sec <= usize::MAX && usec <= usize::MAX {
        Some(TimeVal { sec: sec as usize, usec: usec as usize })
    } else {
        None
    }
}

impl TimeVal {
    /// The time `us` microseconds after the clock's origin.
    pub fn from_micros(us: usize) -> (r: TimeVal)
        ensures
            r.sec == us / 1_000_000,
            r.usec == us % 1_000_000,
    {
        TimeVal { sec: us / 1_000_000, usec: us % 1_000_000 }
    }

    /// The 16-byte wire form.
    pub fn to_bytes(&self) -> (r: Vec<u8>)
        ensures
            r@ == time_val_bytes(self.sec as nat, self.usec as nat),
    {
        let mut bytes = self.usize_to_bytes(self.sec);
        let usec_bytes = self.usize_to_bytes(self.usec);
        let mut i: usize = 0;
        while i < usec_bytes.len()
            invariant
                i <= usec_bytes@.len(),
                usec_bytes@ == le_bytes(self.usec as nat, 8),
                bytes@ == le_bytes(self.sec as nat, 8) + usec_bytes@.subrange(0, i as int),
            decreases usec_bytes@.len() - i,
        {
            bytes.push(usec_bytes[i]);
            assert(usec_bytes@.subrange(0, i + 1) =~= usec_bytes@.subrange(0, i as int).push(usec_bytes@[i as int]));
            i = i + 1;
        }
        assert(usec_bytes@.subrange(0, usec_bytes@.len() as int) =~= usec_bytes@);
        bytes
    }

    /// The eight bytes of a machine word, little-endian.
    fn usize_to_bytes(&self, val: usize) -> (r: Vec<u8>)
        ensures
            r@ == le_bytes(val as nat, 8),
    {
        let mut arr: Vec<u8> = Vec::new();
        push_le(&mut arr, val as u64, 8);
        assert(arr@ =~= Seq::<u8>::empty() + le_bytes(val as nat, 8));
        arr
    }

    /// Parses the 16-byte wire form; `None` for another length or a field
    /// that does not fit a machine word.
    pub fn from_bytes(bytes: &Vec<u8>) -> (r: Option<TimeVal>)
        ensures
            r == decode_time_val(bytes@),
    {
        if bytes.len() != 16 {
            return None;
        }
        let sec = read_le(bytes, 0, 8);
        let usec = read_le(bytes, 8, 8);
        if sec as u128 > usize::MAX as u128 || usec as u128 > usize::MAX as u128 {
            return None;
        }
        Some(TimeVal { sec: sec as usize, usec: usec as usize })
    }
}

/// Serialising a `TimeVal` and parsing the bytes back gives the same fields.
pub proof fn lemma_time_val_round_trip(t: TimeVal)
    ensures
        decode_time_val(time_val_bytes(t.sec as nat, t.usec as nat)) == Some(t),
{
    let s = time_val_bytes(t.sec as nat, t.usec as nat);
    lemma_le_bytes_len(t.sec as nat, 8);
    lemma_le_bytes_len(t.usec as nat, 8);
    assert(s.subrange(0, 8) =~= le_bytes(t.sec as nat, 8));
    assert(s.subrange(8, 16) =~= le_bytes(t.usec as nat, 8));
    lemma_pow256_le8(8);
    reveal_with_fuel(pow256, 9);
    lemma_le_round_trip(t.sec as nat, 8);
    lemma_le_round_trip(t.usec as nat, 8);
}

/// Bytes of a task status: its tag as a four-byte little-endian word.
pub open spec fn status_tag(s: TaskStatus) -> nat {
    match s {
        TaskStatus::UnInit => 0,
        TaskStatus::Ready => 1,
        TaskStatus::Running => 2,
        TaskStatus::Exited => 3,
    }
}

/// The status a tag stands for.
pub open spec fn status_of_tag(t: nat) -> Option<TaskStatus> {
    if t == 0 {
        Some(TaskStatus::UnInit)
    } else if t == 1 {
        Some(TaskStatus::Ready)
    } else if t == 2 {
        Some(TaskStatus::Running)
    } else if t == 3 {
        Some(TaskStatus::Exited)
    } else {
        None
    }
}

/// Bytes of the syscall counters, four little-endian bytes each, in order.
pub open spec fn counts_bytes(c: Seq<u32>) -> Seq<u8>
    decreases c.len(),
{
    if c.len() == 0 {
        Seq::empty()
    } else {
        counts_bytes(c.drop_last()) + le_bytes(c.last() as nat, 4)
    }
}

/// Size of the wire form of a `TaskInfo`.
pub const TASK_INFO_SIZE: usize = 2016;

/// The wire form of a `TaskInfo`: the status tag (4 bytes), the syscall
/// counters (4 bytes each), 4 zero bytes of padding, and the time (8
/// bytes), all little-endian; this is the C layout of the record.
pub open spec fn task_info_bytes(status: TaskStatus, counts: Seq<u32>, time: nat) -> Seq<u8> {
    le_bytes(status_tag(status), 4) + counts_bytes(counts) + le_bytes(0, 4) + le_bytes(time, 8)
}

/// The counter at slot `i` of a `TaskInfo` wire form.
pub open spec fn count_at(s: Seq<u8>, i: int) -> u32 {
    le_value(s.subrange(4 + 4 * i, 8 + 4 * i)) as u32
}

/// The fields a `TaskInfo` wire form holds, if it is one.
pub open spec fn decode_task_info(s: Seq<u8>) -> Option<(TaskStatus, Seq<u32>, usize)> {
    let tag = le_value(s.subrange(0, 4));
    let time = le_value(s.subrange(2008, 2016));
    if s.len() == TASK_INFO_SIZE && status_of_tag(tag).is_some() && time <= usize::MAX {
        Some((status_of_tag(tag).unwrap(), Seq::new(MAX_SYSCALL_NUM as nat, |i: int| count_at(s, i)), time as usize))
    } else {
        None
    }
}

proof fn lemma_counts_bytes(c: Seq<u32>)
    ensures
        counts_bytes(c).len() == 4 * c.len(),
        forall|i: int| 0 <= i < c.len() ==> counts_bytes(c).subrange(4 * i, 4 * i + 4) == le_bytes(#[trigger] c[i] as nat, 4),
    decreases c.len(),
{
    if c.len() > 0 {
        let d = c.drop_last();
        lemma_counts_bytes(d);
        lemma_le_bytes_len(c.last() as nat, 4);
        let b = counts_bytes(c);
        assert forall|i: int| 0 <= i < c.len() implies b.subrange(4 * i, 4 * i + 4) == le_bytes(#[trigger] c[i] as nat, 4) by {
            if i < d.len() {
                assert(d[i] == c[i]);
                assert(b.subrange(4 * i, 4 * i + 4) =~= counts_bytes(d).subrange(4 * i, 4 * i + 4));
            } else {
                assert(b.subrange(4 * i, 4 * i + 4) =~= le_bytes(c.last() as nat, 4));
            }
        }
    }
}

/// A snapshot of a task for user space.
pub struct TaskInfo {
    /// Task status in its life cycle
    status: TaskStatus,
    /// The numbers of syscall called by task
    syscall_times: Vec<u32>,
    /// Total running time of task
    time: usize,
}

impl TaskInfo {
    /// Status, syscall counters and running time.
    pub closed spec fn view(&self) -> (TaskStatus, Seq<u32>, usize) {
        (self.status, self.syscall_times@, self.time)
    }

    /// A snapshot with the given fields.
    pub fn new(status: TaskStatus, syscall_times: Vec<u32>, time: usize) -> (r: Self)
        ensures
            r@ == (status, syscall_times@, time),
    {
        TaskInfo { status, syscall_times, time }
    }

    /// The task's status.
    pub fn status(&self) -> (r: TaskStatus)
        ensures
            r == self@.0,
    {
        self.status
    }

    /// Calls of each system call.
    pub fn syscall_times(&self) -> (r: &Vec<u32>)
        ensures
            r@ == self@.1,
    {
        &self.syscall_times
    }

    /// Milliseconds the task has run.
    pub fn time(&self) -> (r: usize)
        ensures
            r == self@.2,
    {
        self.time
    }

    /// The wire form, `TASK_INFO_SIZE` bytes long.
    pub fn to_bytes(&self) -> (r: Vec<u8>)
        requires
            self@.1.len() == MAX_SYSCALL_NUM,
        ensures
            r@ == task_info_bytes(self@.0, self@.1, self@.2 as nat),
            r@.len() == TASK_INFO_SIZE,
    {
        let mut bytes: Vec<u8> = Vec::new();
        let tag: u64 = match self.status {
            TaskStatus::UnInit => 0,
            TaskStatus::Ready => 1,
            TaskStatus::Running => 2,
            TaskStatus::Exited => 3,
        };
        push_le(&mut bytes, tag, 4);
        let ghost c = self.syscall_times@;
        let mut i: usize = 0;
        while i < self.syscall_times.len()
            invariant
                i <= c.len(),
                c == self.syscall_times@,
                bytes@ == le_bytes(status_tag(self.status), 4) + counts_bytes(c.subrange(0, i as int)),
            decreases c.len() - i,
        {
            let ghost before = bytes@;
            push_le(&mut bytes, self.syscall_times[i] as u64, 4);
            proof {
                let d = c.subrange(0, i + 1);
                assert(d.drop_last() =~= c.subrange(0, i as int));
                assert(bytes@ =~= le_bytes(status_tag(self.status), 4) + counts_bytes(d));
            }
            i = i + 1;
        }
        assert(c.subrange(0, c.len() as int) =~= c);
        push_le(&mut bytes, 0, 4);
        push_le(&mut bytes, self.time as u64, 8);
        proof {
            lemma_le_bytes_len(status_tag(self.status), 4);
            lemma_counts_bytes(c);
            lemma_le_bytes_len(0, 4);
            lemma_le_bytes_len(self.time as nat, 8);
        }
        bytes
    }

    /// Parses the wire form; `None` for another length, an unknown status
    /// tag, or a time that does not fit a machine word.
    pub fn from_bytes(bytes: &Vec<u8>) -> (r: Option<TaskInfo>)
        ensures
            r.is_some() == decode_task_info(bytes@).is_some(),
            r.is_some() ==> r.unwrap()@ == decode_task_info(bytes@).unwrap(),
    {
        if bytes.len() != TASK_INFO_SIZE {
            return None;
        }
        let tag = read_le(bytes, 0, 4);
        let status = if tag == 0 {
            TaskStatus::UnInit
        } else if tag == 1 {
            TaskStatus::Ready
        } else if tag == 2 {
            TaskStatus::Running
        } else if tag == 3 {
            TaskStatus::Exited
        } else {
            return None;
        };
        let time = read_le(bytes, 2008, 8);
        if time as u128 > usize::MAX as u128 {
            return None;
        }
        let mut syscall_times: Vec<u32> = Vec::new();
        let mut i: usize = 0;
        while i < MAX_SYSCALL_NUM
            invariant
                i <= MAX_SYSCALL_NUM,
                bytes@.len() == TASK_INFO_SIZE,
                syscall_times@ == Seq::new(i as nat, |k: int| count_at(bytes@, k)),
            decreases MAX_SYSCALL_NUM - i,
        {
            let v = read_le(bytes, 4 + 4 * i, 4);
            proof {
                lemma_le_value_bound(bytes@.subrange(4 + 4 * i, 8 + 4 * i));
                reveal_with_fuel(pow256, 5);
            }
            syscall_times.push(v as u32);
            assert(syscall_times@ =~= Seq::new((i + 1) as nat, |k: int| count_at(bytes@, k)));
            i = i + 1;
        }
        Some(TaskInfo { status, syscall_times, time: time as usize })
    }
}

/// The wire form of a `TaskInfo` is `TASK_INFO_SIZE` bytes long.
pub proof fn lemma_task_info_len(status: TaskStatus, counts: Seq<u32>, time: nat)
    requires
        counts.len() == MAX_SYSCALL_NUM,
    ensures
        task_info_bytes(status, counts, time).len() == TASK_INFO_SIZE,
{
    lemma_le_bytes_len(status_tag(status), 4);
    lemma_counts_bytes(counts);
    lemma_le_bytes_len(0, 4);
    lemma_le_bytes_len(time, 8);
}

/// Serialising a `TaskInfo` and parsing the bytes back gives the same fields.
pub proof fn lemma_task_info_round_trip(status: TaskStatus, counts: Seq<u32>, time: usize)
    requires
        counts.len() == MAX_SYSCALL_NUM,
    ensures
        decode_task_info(task_info_bytes(status, counts, time as nat)) == Some((status, counts, time)),
{
    let s = task_info_bytes(status, counts, time as nat);
    lemma_le_bytes_len(status_tag(status), 4);
    lemma_counts_bytes(counts);
    lemma_le_bytes_len(0, 4);
    lemma_le_bytes_len(time as nat, 8);
    reveal_with_fuel(pow256, 9);
    assert(s.subrange(0, 4) =~= le_bytes(status_tag(status), 4));
    lemma_le_round_trip(status_tag(status), 4);
    assert(s.subrange(2008, 2016) =~= le_bytes(time as nat, 8));
    lemma_le_round_trip(time as nat, 8);
    let cb = counts_bytes(counts);
    assert forall|i: int| 0 <= i < MAX_SYSCALL_NUM implies count_at(s, i) == counts[i] by {
        assert(s.subrange(4 + 4 * i, 8 + 4 * i) =~= cb.subrange(4 * i, 4 * i + 4));
        lemma_le_round_trip(counts[i] as nat, 4);
    }
    assert(Seq::new(MAX_SYSCALL_NUM as nat, |i: int| count_at(s, i)) =~= counts);
}

} // verus!
