//! Decision logic of the miscellaneous `unistd.h` entry points.
//!
//! The surrounding runtime performs the sleeping and asks the virtual file
//! system; what is decided here — return codes and classifications — works
//! on plain values.

use vstd::prelude::*;

verus! {

/// A guest file descriptor.
pub type FileDescriptor = i32;

pub const STDIN_FILENO: FileDescriptor = 0;

pub const STDOUT_FILENO: FileDescriptor = 1;

pub const STDERR_FILENO: FileDescriptor = 2;

pub const F_OK: i32 = 0;

pub const R_OK: i32 = 4;

/// The runtime sleeps for the requested seconds; no signal ever wakes a
/// guest early, so the unslept remainder is always zero.
pub fn sleep(_seconds: u32) -> (r: u32)
    ensures
        r == 0,
{
    0
}

/// As [`sleep`], in microseconds; always succeeds.
pub fn usleep(_useconds: u32) -> (r: i32)
    ensures
        r == 0,
{
    0
}

/// Only a single guest process is ever simulated; zero would be the init
/// process, so the one process reports one.
pub fn getpid() -> (r: i32)
    ensures
        r == 1,
{
    1
}

/// The parent of the only process.
pub fn getppid() -> (r: i32)
    ensures
        r == 0,
{
    0
}

/// The three standard descriptors are terminals; nothing else is.
pub fn isatty(fd: FileDescriptor) -> (r: i32)
    ensures
        r == (if fd == STDIN_FILENO || fd == STDOUT_FILENO || fd == STDERR_FILENO {
            1int
        } else {
            0int
        }),
{
    if fd == STDIN_FILENO || fd == STDOUT_FILENO || fd == STDERR_FILENO {
        1
    } else {
        0
    }
}

/// Decision of `access` once the file system has answered whether the path
/// exists and is readable: existence for `F_OK`, readability for `R_OK`.
pub fn access(exists: bool, readable: bool, mode: i32) -> (r: i32)
    requires
        mode == F_OK || mode == R_OK,
    ensures
        mode == F_OK ==> r == (if exists {
            0int
        } else {
            -1int
        }),
        mode == R_OK ==> r == (if readable {
            0int
        } else {
            -1int
        }),
{
    if mode == F_OK {
        if exists {
            0
        } else {
            -1
        }
    } else {
        if readable {
            0
        } else {
            -1
        }
    }
}

/// The system name structure is never filled in.
pub fn uname() -> (r: i32)
    ensures
        r == -1,
{
    -1
}

} // verus!
