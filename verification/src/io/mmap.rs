//! Rules for read-only mappings.
use vstd::prelude::*;

use crate::error::{Error, ErrorView, IoErrorKind, Result};

verus! {

/// Page-cache hint for a mapping.
#[derive(Debug, Clone, Copy, PartialEq, Eq, Structural)]
pub enum Advice {
    /// The kernel's default.
    Normal,
    /// Random access pattern; disable read-ahead.
    Random,
    /// Sequential access; aggressive read-ahead.
    Sequential,
    /// Populate pages now.
    WillNeed,
    /// Discard pages, freeing memory.
    DontNeed,
}

/// Length of the mapping of a file of `size` bytes. An empty file cannot be
/// mapped, nor one whose size is beyond the address space.
pub fn mapping_len(size: u64) -> (r: Result<usize>)
    ensures
        match r {
            Ok(n) => n == size && size > 0,
            Err(e) => if size > usize::MAX {
                e@ == (ErrorView::Io {
                    kind: IoErrorKind::InvalidInput,
                    message: "file size does not fit in usize"@,
                })
            } else {
                size == 0 && e@ == (ErrorView::Io {
                    kind: IoErrorKind::InvalidInput,
                    message: "cannot mmap a zero-length file"@,
                })
            },
        },
{
    if size > usize::MAX as u64 {
        return Err(Error::io(IoErrorKind::InvalidInput, "file size does not fit in usize"));
    }
    if size == 0 {
        return Err(Error::io(IoErrorKind::InvalidInput, "cannot mmap a zero-length file"));
    }
    Ok(size as usize)
}

/// Hold the range `[offset, offset + length)` to a mapping of `len` bytes.
pub fn check_range(len: usize, offset: usize, length: usize) -> (r: Result<()>)
    ensures
        match r {
            Ok(()) => offset + length <= len,
            Err(e) => if offset + length > usize::MAX {
                e@ == (ErrorView::Io {
                    kind: IoErrorKind::InvalidInput,
                    message: "advise range overflow"@,
                })
            } else {
                offset + length > len && e@ == (ErrorView::Io {
                    kind: IoErrorKind::InvalidInput,
                    message: "advise range exceeds mapping length"@,
                })
            },
        },
{
    if length > usize::MAX - offset {
        return Err(Error::io(IoErrorKind::InvalidInput, "advise range overflow"));
    }
    if offset + length > len {
        return Err(Error::io(IoErrorKind::InvalidInput, "advise range exceeds mapping length"));
    }
    Ok(())
}

} // verus!
