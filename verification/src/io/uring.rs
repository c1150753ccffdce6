//! Completions of asynchronous file operations.
use vstd::prelude::*;

use crate::error::{Error, ErrorView, IoErrorKind, Result};

verus! {

/// Caller-chosen tag attached to each submission. Surfaces in the matching
/// completion.
pub type UserData = u64;

/// Outcome of a single completion event.
#[derive(Debug, Clone, Copy, PartialEq, Eq, Structural)]
pub struct Completion {
    /// The tag attached to the originating submission.
    pub user_data: UserData,
    /// Kernel-reported result. Not negative: bytes transferred; negative: the
    /// negated error number.
    pub result: i32,
    /// Kernel-supplied per-op flags.
    pub flags: u32,
}

impl Completion {
    /// Whether the operation succeeded.
    pub fn ok(&self) -> (r: bool)
        ensures
            r == (self.result >= 0),
    {
        self.result >= 0
    }

    /// The error number, if the operation failed.
    pub fn errno(&self) -> (r: Option<i32>)
        requires
            self.result > i32::MIN,
        ensures
            match r {
                Some(n) => self.result < 0 && n == -self.result,
                None => self.result >= 0,
            },
    {
        if self.result < 0 {
            Some(-self.result)
        } else {
            None
        }
    }

    /// Bytes transferred, if the operation succeeded.
    pub fn bytes(&self) -> (r: Option<usize>)
        ensures
            match r {
                Some(n) => self.result >= 0 && n == self.result,
                None => self.result < 0,
            },
    {
        if self.result >= 0 {
            Some(self.result as usize)
        } else {
            None
        }
    }
}

/// Hold `want` submissions to a queue of `capacity` slots of which `used` are
/// taken: submissions that belong together go in together or not at all.
pub fn check_room(capacity: usize, used: usize, want: usize) -> (r: Result<()>)
    requires
        used <= capacity,
    ensures
        match r {
            Ok(()) => capacity - used >= want,
            Err(e) => capacity - used < want && e@ == (ErrorView::Io {
                kind: IoErrorKind::WouldBlock,
                message: "io_uring submission queue full"@,
            }),
        },
{
    if capacity - used < want {
        return Err(Error::io(IoErrorKind::WouldBlock, "io_uring submission queue full"));
    }
    Ok(())
}

} // verus!
