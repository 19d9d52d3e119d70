//! The decisions of the kernel's trap handlers and console reads; the
//! handlers themselves perform what is decided here.

use vstd::prelude::*;

verus! {

/// The number of the exit system call.
pub const SYS_EXIT: usize = 93;

/// The Linux error number for a system call that does not exist.
pub const ENOSYS: isize = 38;

/// The byte a carriage return is read as.
pub const LINE_FEED: u8 = 10;

/// A carriage return.
pub const CARRIAGE_RETURN: u8 = 13;

/// What a system call leads to.
#[derive(PartialEq, Eq, Structural, Clone, Copy, Debug)]
pub enum SyscallAction {
    /// The current task exits with this code.
    Exit(i32),
    /// The call returns this value to the caller.
    Return(isize),
}

/// What a page fault leads to.
#[derive(PartialEq, Eq, Structural, Clone, Copy, Debug)]
pub enum FaultAction {
    /// The faulting task goes on.
    Resume,
    /// The current task exits with this code.
    Exit(i32),
}

/// The byte handed on for a byte read from the console, if one was there:
/// a carriage return reads as a line feed.
pub fn console_byte(c: Option<u8>) -> (r: Option<u8>)
    ensures
        r == match c {
            Some(b) => Some(
                if b == CARRIAGE_RETURN {
                    LINE_FEED
                } else {
                    b
                },
            ),
            None => None::<u8>,
        },
{
    match c {
        Some(b) => Some(
            if b == CARRIAGE_RETURN {
                LINE_FEED
            } else {
                b
            },
        ),
        None => None,
    }
}

/// What system call `num` with first argument `arg0` leads to: exit takes
/// its code from the argument; every other call is refused with `ENOSYS`.
pub fn syscall_action(num: usize, arg0: usize) -> (r: SyscallAction)
    ensures
        num == SYS_EXIT ==> r == SyscallAction::Exit(arg0 as i32),
        num != SYS_EXIT ==> r == SyscallAction::Return((-ENOSYS) as isize),
{
    if num == SYS_EXIT {
        SyscallAction::Exit(arg0 as i32)
    } else {
        SyscallAction::Return(-ENOSYS)
    }
}

/// What a page fault leads to, given whether the address space could map
/// the page: the task goes on, or exits with -1.
pub fn page_fault_action(handled: bool) -> (r: FaultAction)
    ensures
        handled ==> r == FaultAction::Resume,
        !handled ==> r == FaultAction::Exit(-1i32),
{
    if handled {
        FaultAction::Resume
    } else {
        FaultAction::Exit(-1)
    }
}

} // verus!
