//! Process management syscalls: argument checks and the decisions they lead
//! to. What a decision asks of the kernel (reading user memory, changing the
//! address space, asking the clock) is returned as a `ProcessStep` or taken
//! as an argument.
use vstd::prelude::*;

verus! {

/// Size of a page, in bytes.
pub const PAGE_SIZE: usize = 0x1000;

/// Page-table entry flag: the entry is valid.
pub const PTE_V: u8 = 1;

/// Page-table entry flag: the page is readable.
pub const PTE_R: u8 = 2;

/// Page-table entry flag: the page is writable.
pub const PTE_W: u8 = 4;

/// Page-table entry flag: the page is accessible from user mode.
pub const PTE_U: u8 = 16;

/// Microseconds in a second.
pub const USEC_PER_SEC: usize = 1_000_000;

/// A time as seconds and microseconds.
#[derive(Debug)]
pub struct TimeVal {
    pub sec: usize,
    pub usec: usize,
}

/// The flags of a page-table entry.
#[derive(Clone, Copy, Debug, PartialEq, Eq)]
pub struct PteFlags {
    pub bits: u8,
}

/// What the kernel does to finish a process syscall.
#[derive(Debug, PartialEq, Eq)]
pub enum ProcessStep {
    /// Nothing more: the syscall returns this value.
    Return(isize),
    /// Read the user byte at this address; the syscall returns its value.
    ReadUserByte(usize),
    /// Write this byte at this user address; the syscall returns `0`.
    WriteUserByte(usize, u8),
    /// The syscall returns how often the current task made this syscall.
    SyscallCount(usize),
    /// Map `len` bytes at `start` with permissions `port` into the current
    /// address space; the syscall returns what that gives.
    Mmap { start: usize, len: usize, port: usize },
    /// Unmap `len` bytes at `start` from the current address space; the
    /// syscall returns what that gives.
    Munmap { start: usize, len: usize },
}

/// Whether `flags` has any bit of `bit` set (a single flag is one bit).
pub open spec fn has_flag(flags: PteFlags, bit: u8) -> bool {
    flags.bits & bit != 0
}

/// A user may access the page that `pte` maps: the entry exists, is valid,
/// is a user page, and is writable (for a write) or readable (for a read).
pub open spec fn user_accessible(pte: Option<PteFlags>, writable: bool) -> bool {
    match pte {
        None => false,
        Some(f) => {
            &&& has_flag(f, PTE_V)
            &&& has_flag(f, PTE_U)
            &&& if writable {
                has_flag(f, PTE_W)
            } else {
                has_flag(f, PTE_R)
            }
        },
    }
}

/// `port` asks for some permission and only for read, write and execute.
pub open spec fn valid_port(port: usize) -> bool {
    port & !0x7usize == 0 && port & 0x7usize != 0
}

/// Split a time in microseconds into seconds and microseconds.
pub fn sys_get_time(us: usize) -> (tv: TimeVal)
    ensures
        tv.sec == us / USEC_PER_SEC,
        tv.usec == us % USEC_PER_SEC,
        tv.usec < USEC_PER_SEC,
        tv.sec * USEC_PER_SEC + tv.usec == us,
{
    TimeVal { sec: us / USEC_PER_SEC, usec: us % USEC_PER_SEC }
}

/// Check if a user virtual address is accessible with the given permission,
/// given the page-table entry (if any) that maps its page.
pub fn check_user_va(pte: Option<PteFlags>, writable: bool) -> (ok: bool)
    ensures
        ok == user_accessible(pte, writable),
{
    if let Some(flags) = pte {
        if flags.bits & PTE_V == 0 {
            return false;
        }
        if flags.bits & PTE_U == 0 {
            return false;
        }
        if writable && flags.bits & PTE_W == 0 {
            return false;
        }
        if !writable && flags.bits & PTE_R == 0 {
            return false;
        }
        true
    } else {
        false
    }
}

/// Trace request `trace_request`: `0` reads the user byte at address `id`,
/// `1` writes the low byte of `data` there, `2` asks how often the current
/// task made syscall `id`; anything else, or an address the user may not
/// read (resp. write), gives `-1`. `pte` is the page-table entry, if any,
/// that maps the page of `id`.
pub fn sys_trace(trace_request: usize, id: usize, data: usize, pte: Option<PteFlags>) -> (step:
    ProcessStep)
    ensures
        trace_request == 0 ==> step == if user_accessible(pte, false) {
            ProcessStep::ReadUserByte(id)
        } else {
            ProcessStep::Return(-1isize)
        },
        trace_request == 1 ==> step == if user_accessible(pte, true) {
            ProcessStep::WriteUserByte(id, data as u8)
        } else {
            ProcessStep::Return(-1isize)
        },
        trace_request == 2 ==> step == ProcessStep::SyscallCount(id),
        trace_request > 2 ==> step == ProcessStep::Return(-1isize),
{
    match trace_request {
        0 => {
            if !check_user_va(pte, false) {
                return ProcessStep::Return(-1isize);
            }
            ProcessStep::ReadUserByte(id)
        },
        1 => {
            if !check_user_va(pte, true) {
                return ProcessStep::Return(-1isize);
            }
            ProcessStep::WriteUserByte(id, data as u8)
        },
        2 => ProcessStep::SyscallCount(id),
        _ => ProcessStep::Return(-1isize),
    }
}

/// The valid permission sets are exactly the nonzero combinations of read,
/// write and execute: the numbers 1 to 7. A port with any bit outside the
/// low three, or with none of them, is refused.
pub proof fn law_valid_ports_are_one_to_seven(port: usize)
    ensures
        valid_port(port) <==> (1 <= port && port <= 7),
        port & !0x7usize != 0 ==> !valid_port(port),
        port & 0x7usize == 0 ==> !valid_port(port),
{
    assert((port & !0x7usize == 0 && port & 0x7usize != 0) <==> (1 <= port && port <= 7))
        by (bit_vector);
    assert(port & !0x7usize != 0 ==> !(1 <= port && port <= 7)) by (bit_vector);
    assert(port & 0x7usize == 0 ==> !(1 <= port && port <= 7)) by (bit_vector);
}

/// Map `len` bytes at `start` with permissions `port`: refused with `-1`
/// unless `start` is page-aligned and `port` is a valid permission set.
pub fn sys_mmap(start: usize, len: usize, port: usize) -> (step: ProcessStep)
    ensures
        step == if start % PAGE_SIZE == 0 && valid_port(port) {
            ProcessStep::Mmap { start, len, port }
        } else {
            ProcessStep::Return(-1isize)
        },
        port & !0x7usize != 0 ==> step == ProcessStep::Return(-1isize),
        !(1 <= port && port <= 7) ==> step == ProcessStep::Return(-1isize),
        start % PAGE_SIZE != 0 ==> step == ProcessStep::Return(-1isize),
        (start % PAGE_SIZE == 0 && 1 <= port && port <= 7) ==> (step == ProcessStep::Mmap {
            start,
            len,
            port,
        }),
{
    proof {
        law_valid_ports_are_one_to_seven(port);
    }
    if start % PAGE_SIZE != 0 {
        return ProcessStep::Return(-1isize);
    }
    if port & !0x7 != 0 || port & 0x7 == 0 {
        return ProcessStep::Return(-1isize);
    }
    ProcessStep::Mmap { start, len, port }
}

/// Unmap `len` bytes at `start`: refused with `-1` unless both ends of the
/// range are page-aligned.
pub fn sys_munmap(start: usize, len: usize) -> (step: ProcessStep)
    requires
        start + len <= usize::MAX,
    ensures
        step == if start % PAGE_SIZE == 0 && (start + len) % (PAGE_SIZE as int) == 0 {
            ProcessStep::Munmap { start, len }
        } else {
            ProcessStep::Return(-1isize)
        },
{
    if start % PAGE_SIZE != 0 || (start + len) % PAGE_SIZE != 0 {
        return ProcessStep::Return(-1isize);
    }
    ProcessStep::Munmap { start, len }
}

/// Result of changing the data segment size, given the old program break
/// that the change reported (`None` when it was refused).
pub fn sys_sbrk(old_brk: Option<usize>) -> (r: isize)
    ensures
        r == match old_brk {
            Some(b) => b as isize,
            None => -1isize,
        },
{
    if let Some(old_brk) = old_brk {
        old_brk as isize
    } else {
        -1
    }
}

/// The time, in milliseconds, at which a sleep of `ms` milliseconds started
/// at `now_ms` ends.
pub fn sys_sleep(now_ms: usize, ms: usize) -> (expire_ms: usize)
    requires
        now_ms + ms <= usize::MAX,
    ensures
        expire_ms == now_ms + ms,
{
    now_ms + ms
}

} // verus!
