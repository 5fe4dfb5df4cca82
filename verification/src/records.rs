//! Fixed-layout records the accounting syscalls write into user
//! memory, and their little-endian byte encodings.  The records are
//! laid out byte-exactly so they can be written window by window even
//! when their span straddles a page boundary.

use vstd::prelude::*;
use crate::config::MAX_SYSCALL_NUM;
use crate::task::TaskStatus;

verus! {

/// Little-endian bytes of a 64-bit value.
pub open spec fn u64_le(v: u64) -> Seq<u8> {
    seq![
        (v % 0x100) as u8,
        ((v / 0x100) % 0x100) as u8,
        ((v / 0x1_0000) % 0x100) as u8,
        ((v / 0x100_0000) % 0x100) as u8,
        ((v / 0x1_0000_0000) % 0x100) as u8,
        ((v / 0x100_0000_0000) % 0x100) as u8,
        ((v / 0x1_0000_0000_0000) % 0x100) as u8,
        ((v / 0x100_0000_0000_0000) % 0x100) as u8,
    ]
}

/// Little-endian bytes of a 32-bit value.
pub open spec fn u32_le(v: u32) -> Seq<u8> {
    seq![
        (v % 0x100) as u8,
        ((v / 0x100) % 0x100) as u8,
        ((v / 0x1_0000) % 0x100) as u8,
        ((v / 0x100_0000) % 0x100) as u8,
    ]
}

/// Two's-complement bit pattern of a signed 32-bit value.
pub open spec fn u32_of_i32(v: i32) -> u32 {
    if v >= 0 {
        v as u32
    } else {
        (v as int + 0x1_0000_0000) as u32
    }
}

/// Little-endian bytes of a signed 32-bit value, two's complement.
pub open spec fn i32_le(v: i32) -> Seq<u8> {
    u32_le(u32_of_i32(v))
}

/// Little-endian bytes of a syscall accounting table, entry by entry.
pub open spec fn counts_le(s: Seq<u32>) -> Seq<u8>
    decreases s.len(),
{
    if s.len() == 0 {
        Seq::empty()
    } else {
        counts_le(s.drop_last()) + u32_le(s.last())
    }
}

pub proof fn lemma_counts_le_len(s: Seq<u32>)
    ensures
        counts_le(s).len() == 4 * s.len(),
    decreases s.len(),
{
    if s.len() > 0 {
        lemma_counts_le_len(s.drop_last());
    }
}

/// Byte encoding a task status: Ready 0, Running 1, Zombie 2.
pub open spec fn status_code(s: TaskStatus) -> u8 {
    match s {
        TaskStatus::Ready => 0u8,
        TaskStatus::Running => 1u8,
        TaskStatus::Zombie => 2u8,
    }
}

/// Wall-clock reading written by `get_time`: seconds and microseconds.
pub struct TimeVal {
    pub sec: usize,
    pub usec: usize,
}

/// Size in bytes of an encoded `TimeVal`.
pub const TIME_VAL_BYTES: usize = 16;

impl TimeVal {
    /// Byte layout: seconds then microseconds, 8 bytes each,
    /// little-endian.
    pub open spec fn bytes_of(self) -> Seq<u8> {
        u64_le(self.sec as u64) + u64_le(self.usec as u64)
    }

    pub fn encode(&self) -> (r: Vec<u8>)
        ensures
            r@ == self.bytes_of(),
            r@.len() == TIME_VAL_BYTES,
    {
        let mut r: Vec<u8> = Vec::new();
        push_u64_le(&mut r, self.sec as u64);
        push_u64_le(&mut r, self.usec as u64);
        proof {
            assert(r@ =~= self.bytes_of());
        }
        r
    }
}

/// Introspection record written by `task_info`: the task's status,
/// its syscall accounting table, and its total running time in
/// milliseconds.
pub struct TaskInfo {
    pub status: TaskStatus,
    pub syscall_times: Vec<u32>,
    pub time: usize,
}

/// Size in bytes of an encoded `TaskInfo`: one status byte, four
/// bytes per tracked syscall identifier, eight bytes of running time.
pub const TASK_INFO_BYTES: usize = 2009;

impl TaskInfo {
    /// Byte layout: the status byte, then each counter in table
    /// order, little-endian, then the running time, little-endian.
    pub open spec fn bytes_of(self) -> Seq<u8> {
        seq![status_code(self.status)] + counts_le(self.syscall_times@) + u64_le(self.time as u64)
    }

    pub fn encode(&self) -> (r: Vec<u8>)
        requires
            self.syscall_times@.len() == MAX_SYSCALL_NUM,
        ensures
            r@ == self.bytes_of(),
            r@.len() == TASK_INFO_BYTES,
    {
        let mut r: Vec<u8> = Vec::new();
        let status_byte: u8 = match self.status {
            TaskStatus::Ready => 0u8,
            TaskStatus::Running => 1u8,
            TaskStatus::Zombie => 2u8,
        };
        r.push(status_byte);
        let n = self.syscall_times.len();
        let mut i: usize = 0;
        while i < n
            invariant
                n == self.syscall_times@.len(),
                i <= n,
                r@ =~= seq![status_code(self.status)] + counts_le(self.syscall_times@.take(i as int)),
            decreases n - i,
        {
            proof {
                let s = self.syscall_times@;
                assert(s.take(i + 1).drop_last() =~= s.take(i as int));
                assert(s.take(i + 1).last() == s[i as int]);
            }
            push_u32_le(&mut r, self.syscall_times[i]);
            i += 1;
        }
        proof {
            assert(self.syscall_times@.take(n as int) =~= self.syscall_times@);
            lemma_counts_le_len(self.syscall_times@);
        }
        push_u64_le(&mut r, self.time as u64);
        proof {
            assert(r@ =~= self.bytes_of());
        }
        r
    }
}

/// Append the little-endian bytes of a 64-bit value.
pub fn push_u64_le(out: &mut Vec<u8>, v: u64)
    ensures
        final (out)@ == old(out)@ + u64_le(v),
{
    out.push((v % 0x100) as u8);
    out.push(((v / 0x100) % 0x100) as u8);
    out.push(((v / 0x1_0000) % 0x100) as u8);
    out.push(((v / 0x100_0000) % 0x100) as u8);
    out.push(((v / 0x1_0000_0000) % 0x100) as u8);
    out.push(((v / 0x100_0000_0000) % 0x100) as u8);
    out.push(((v / 0x1_0000_0000_0000) % 0x100) as u8);
    out.push(((v / 0x100_0000_0000_0000) % 0x100) as u8);
    proof {
        assert(out@ =~= old(out)@ + u64_le(v));
    }
}

/// Append the little-endian bytes of a 32-bit value.
pub fn push_u32_le(out: &mut Vec<u8>, v: u32)
    ensures
        final (out)@ == old(out)@ + u32_le(v),
{
    out.push((v % 0x100) as u8);
    out.push(((v / 0x100) % 0x100) as u8);
    out.push(((v / 0x1_0000) % 0x100) as u8);
    out.push(((v / 0x100_0000) % 0x100) as u8);
    proof {
        assert(out@ =~= old(out)@ + u32_le(v));
    }
}

/// The two's-complement bit pattern of a signed 32-bit value.
pub fn i32_bits(v: i32) -> (r: u32)
    ensures
        r == u32_of_i32(v),
{
    if v >= 0 {
        v as u32
    } else {
        ((v as i64) + 0x1_0000_0000) as u32
    }
}

/// The little-endian bytes of a signed 32-bit value.
pub fn encode_i32(v: i32) -> (r: Vec<u8>)
    ensures
        r@ == i32_le(v),
        r@.len() == 4,
{
    let mut r: Vec<u8> = Vec::new();
    push_u32_le(&mut r, i32_bits(v));
    proof {
        assert(r@ =~= i32_le(v));
    }
    r
}

} // verus!
