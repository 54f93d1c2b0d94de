//! System calls: the decoding of a call from its number and arguments, and
//! the decisions that each call takes on the state of the calling process.
use vstd::prelude::*;

pub mod fs;
pub mod process;
pub mod user;

verus! {

/// The `write` system call number.
pub const SYSCALL_WRITE: usize = 64;
/// The `exit` system call number.
pub const SYSCALL_EXIT: usize = 93;

/// A decoded system call.
#[derive(Copy, Clone, PartialEq, Eq, Structural)]
pub enum SyscallRequest {
    /// Write `len` bytes at user address `buf` to file descriptor `fd`.
    Write { fd: usize, buf: usize, len: usize },
    /// Exit the application with `code`.
    Exit { code: i32 },
    /// An unknown system call number: the kernel stops, reporting it.
    Unsupported { id: usize },
}

/// Decode one user system call from its number (a7) and arguments
/// (a0, a1, a2). `write` forwards all three; `exit` takes a0 as an `i32` and
/// ignores the rest.
pub fn syscall(syscall_id: usize, args: [usize; 3]) -> (r: SyscallRequest)
    ensures
        syscall_id == SYSCALL_WRITE ==> r == (SyscallRequest::Write {
            fd: args@[0],
            buf: args@[1],
            len: args@[2],
        }),
        syscall_id == SYSCALL_EXIT ==> r == (SyscallRequest::Exit { code: args@[0] as i32 }),
        syscall_id != SYSCALL_WRITE && syscall_id != SYSCALL_EXIT ==> r
            == (SyscallRequest::Unsupported { id: syscall_id }),
{
    if syscall_id == SYSCALL_WRITE {
        SyscallRequest::Write { fd: args[0], buf: args[1], len: args[2] }
    } else if syscall_id == SYSCALL_EXIT {
        SyscallRequest::Exit { code: args[0] as i32 }
    } else {
        SyscallRequest::Unsupported { id: syscall_id }
    }
}

} // verus!
