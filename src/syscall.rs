//! System-call numbers and their dispatch.
use vstd::prelude::*;
use crate::frame_allocator::StackFrameAllocator;
use crate::memory_set::{translated_byte_buffer, write_user_bytes, MemorySet};

verus! {

pub const SYSCALL_READ: usize = 63;
pub const SYSCALL_WRITE: usize = 64;
pub const SYSCALL_EXIT: usize = 93;
pub const SYSCALL_YIELD: usize = 124;
pub const SYSCALL_GET_TIME: usize = 169;
pub const SYSCALL_GETPID: usize = 172;
pub const SYSCALL_FORK: usize = 220;
pub const SYSCALL_EXEC: usize = 221;
pub const SYSCALL_WAITPID: usize = 260;

/// The system calls the kernel serves.
#[derive(Clone, Copy, Debug, PartialEq, Eq, Structural)]
pub enum Syscall {
    Read,
    Write,
    Exit,
    Yield,
    GetTime,
    GetPid,
    Fork,
    Exec,
    WaitPid,
}

/// The system call with number `id`.
pub open spec fn syscall_of(id: usize) -> Option<Syscall> {
    if id == SYSCALL_READ {
        Some(Syscall::Read)
    } else if id == SYSCALL_WRITE {
        Some(Syscall::Write)
    } else if id == SYSCALL_EXIT {
        Some(Syscall::Exit)
    } else if id == SYSCALL_YIELD {
        Some(Syscall::Yield)
    } else if id == SYSCALL_GET_TIME {
        Some(Syscall::GetTime)
    } else if id == SYSCALL_GETPID {
        Some(Syscall::GetPid)
    } else if id == SYSCALL_FORK {
        Some(Syscall::Fork)
    } else if id == SYSCALL_EXEC {
        Some(Syscall::Exec)
    } else if id == SYSCALL_WAITPID {
        Some(Syscall::WaitPid)
    } else {
        None
    }
}

/// Decodes the system-call number passed in `x17`; `None` for an unknown number.
pub fn decode_syscall(id: usize) -> (r: Option<Syscall>)
    ensures
        r == syscall_of(id),
{
    match id {
        SYSCALL_READ => Some(Syscall::Read),
        SYSCALL_WRITE => Some(Syscall::Write),
        SYSCALL_EXIT => Some(Syscall::Exit),
        SYSCALL_YIELD => Some(Syscall::Yield),
        SYSCALL_GET_TIME => Some(Syscall::GetTime),
        SYSCALL_GETPID => Some(Syscall::GetPid),
        SYSCALL_FORK => Some(Syscall::Fork),
        SYSCALL_EXEC => Some(Syscall::Exec),
        SYSCALL_WAITPID => Some(Syscall::WaitPid),
        _ => None,
    }
}

/// File descriptor of the console input.
pub const FD_STDIN: usize = 0;

/// File descriptor of the console output.
pub const FD_STDOUT: usize = 1;

/// `write(FD_STDOUT, buf, len)` for the process with address space `space`:
/// the `len` bytes at `buf`, for the console, and the count returned to the
/// process; `None` when part of the buffer is not mapped.
pub fn sys_write(space: &MemorySet, fd: usize, buf: u64, len: u64, alloc: &StackFrameAllocator) -> (r: Option<(isize, Vec<u8>)>)
    requires
        fd == FD_STDOUT,
        space.wf(alloc),
        buf + len <= u64::MAX,
        len <= isize::MAX,
    ensures
        r.is_some() <==> forall|j: int| 0 <= j < len ==> (#[trigger] space.user_byte((buf + j) as u64)).is_some(),
        r.is_some() ==> r.unwrap().0 == len && r.unwrap().1@.len() == len
            && forall|j: int| 0 <= j < len ==> Some(#[trigger] r.unwrap().1@[j]) == space.user_byte((buf + j) as u64),
{
    match translated_byte_buffer(space, buf, len, alloc) {
        None => None,
        Some(bytes) => Some((len as isize, bytes)),
    }
}

/// `read(FD_STDIN, buf, len)` for the process with address space `space`,
/// once the console has produced the non-zero bytes `input` (a zero means
/// no input yet, which the caller waits out): stores the first
/// `min(len, input.len())` of them at `buf` and returns that count, or -1,
/// changing nothing, when part of that range is not mapped. Every other
/// user byte keeps its value.
pub fn sys_read(space: &mut MemorySet, fd: usize, buf: u64, len: u64, input: &[u8], alloc: &StackFrameAllocator) -> (r: isize)
    requires
        fd == FD_STDIN,
        old(space).wf(alloc),
        buf + len <= u64::MAX,
        len <= isize::MAX,
        forall|j: int| 0 <= j < input@.len() ==> #[trigger] input@[j] != 0,
    ensures
        final(space).wf(alloc),
        ({
            let n = if len < input@.len() { len as int } else { input@.len() as int };
            &&& (r == n) <==> forall|j: int| 0 <= j < n ==> (#[trigger] old(space).user_byte((buf + j) as u64)).is_some()
            &&& r == n || r == -1
            &&& r == -1 ==> *final(space) == *old(space)
            &&& r == n ==> forall|j: int| 0 <= j < n ==> #[trigger] final(space).user_byte((buf + j) as u64) == Some(input@[j])
            &&& r == n ==> forall|w: u64| (w < buf || w >= buf + n) ==> #[trigger] final(space).user_byte(w) == old(space).user_byte(w)
        }),
{
    let n: u64 = if len < input.len() as u64 { len } else { input.len() as u64 };
    if translated_byte_buffer(space, buf, n, alloc).is_none() {
        return -1;
    }
    let mut bytes: Vec<u8> = Vec::new();
    let mut i: u64 = 0;
    while i < n
        invariant
            n <= input@.len(),
            i <= n,
            bytes@ == input@.subrange(0, i as int),
        decreases n - i,
    {
        bytes.push(input[i as usize]);
        i = i + 1;
        assert(bytes@ =~= input@.subrange(0, i as int));
    }
    let ok = write_user_bytes(space, buf, bytes.as_slice(), alloc);
    proof {
        assert(ok);
    }
    n as isize
}

} // verus!