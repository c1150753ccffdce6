//! Rules for direct file access.
//!
//! Access that bypasses the page cache asks that a buffer's length and the
//! file offset be multiples of the device's block size. A transfer may take
//! several system calls; [`Transfer`] keeps track of it.
use vstd::arithmetic::div_mod::{lemma_mod_multiples_vanish, lemma_small_mod};
use vstd::prelude::*;
use vstd::string::*;

use crate::encoding::text::{decimal, decimal_string};
use crate::error::{Error, ErrorView, IoError, IoErrorKind, Result};
use crate::io::aligned_buf::{power_of_two, PAGE_SIZE};

verus! {

/// The alignment that a direct file asks for.
#[derive(Debug, Clone, Copy)]
pub struct Alignment {
    block_size: usize,
}

impl View for Alignment {
    type V = nat;

    closed spec fn view(&self) -> nat {
        self.block_size as nat
    }
}

/// Why a transfer is refused, if so.
pub open spec fn alignment_refusal(block: nat, len: nat, offset: nat) -> Option<Seq<char>> {
    if len % block != 0 {
        Some(
            "buffer length "@ + decimal(len) + " not a multiple of block size "@ + decimal(block),
        )
    } else if offset % block != 0 {
        Some("offset "@ + decimal(offset) + " not aligned to block size "@ + decimal(block))
    } else {
        None
    }
}

/// Law: transfers of whole blocks at block boundaries pass, and no others do.
pub proof fn law_whole_blocks_pass(block: nat, i: nat, j: nat, d: nat)
    requires
        0 < d < block,
    ensures
        alignment_refusal(block, block * i, block * j) is None,
        alignment_refusal(block, block * i + d, block * j) is Some,
        alignment_refusal(block, block * i, block * j + d) is Some,
{
    lemma_mod_multiples_vanish(i as int, 0, block as int);
    lemma_mod_multiples_vanish(j as int, 0, block as int);
    lemma_mod_multiples_vanish(i as int, d as int, block as int);
    lemma_mod_multiples_vanish(j as int, d as int, block as int);
    lemma_small_mod(0, block);
    lemma_small_mod(d, block);
}

impl Alignment {
    /// The page size.
    pub fn new() -> (a: Alignment)
        ensures
            a@ == 4096,
    {
        Alignment { block_size: PAGE_SIZE }
    }

    /// Block size that transfers are held to.
    pub fn block_size(&self) -> (n: usize)
        ensures
            n == self@,
    {
        self.block_size
    }

    /// Override the alignment, for instance for a device with 512-byte
    /// sectors.
    pub fn set_block_size(&mut self, size: usize)
        requires
            power_of_two(size as nat),
        ensures
            final(self)@ == size,
    {
        self.block_size = size;
    }

    /// Hold a transfer of `len` bytes at `offset` to the alignment.
    pub fn check(&self, len: usize, offset: u64) -> (r: Result<()>)
        requires
            self@ > 0,
        ensures
            match alignment_refusal(self@, len as nat, offset as nat) {
                Some(message) => r matches Err(e) && e@ == (ErrorView::Io {
                    kind: IoErrorKind::InvalidInput,
                    message,
                }),
                None => r is Ok,
            },
    {
        let block: usize = self.block_size;
        if len % block != 0 {
            let mut message: String = "buffer length ".to_owned();
            message.append(decimal_string(len as u64).as_str());
            message.append(" not a multiple of block size ");
            message.append(decimal_string(block as u64).as_str());
            return Err(Error::Io(IoError { kind: IoErrorKind::InvalidInput, message }));
        }
        if offset % (block as u64) != 0 {
            let mut message: String = "offset ".to_owned();
            message.append(decimal_string(offset).as_str());
            message.append(" not aligned to block size ");
            message.append(decimal_string(block as u64).as_str());
            return Err(Error::Io(IoError { kind: IoErrorKind::InvalidInput, message }));
        }
        Ok(())
    }
}

impl Default for Alignment {
    fn default() -> (a: Alignment)
        ensures
            a@ == 4096,
    {
        Alignment::new()
    }
}

/// A transfer between a buffer and a file, in as many steps as it takes.
#[derive(Debug)]
pub struct Transfer {
    offset: u64,
    len: usize,
    done: usize,
}

impl Transfer {
    /// Where the transfer starts in the file.
    pub closed spec fn start(&self) -> nat {
        self.offset as nat
    }

    /// Bytes to transfer.
    pub closed spec fn total(&self) -> nat {
        self.len as nat
    }

    /// Bytes transferred so far.
    pub closed spec fn moved(&self) -> nat {
        self.done as nat
    }

    /// No more was transferred than there is.
    pub open spec fn wf(&self) -> bool {
        self.moved() <= self.total()
    }

    /// Start a transfer of `len` bytes at `offset`.
    pub fn new(len: usize, offset: u64) -> (t: Transfer)
        ensures
            t.wf(),
            t.start() == offset,
            t.total() == len,
            t.moved() == 0,
    {
        Transfer { offset, len, done: 0 }
    }

    /// Whether everything has been transferred.
    pub fn is_complete(&self) -> (r: bool)
        requires
            self.wf(),
        ensures
            r == (self.moved() == self.total()),
    {
        self.done >= self.len
    }

    /// Bytes transferred so far: where the next step starts in the buffer.
    pub fn done(&self) -> (n: usize)
        ensures
            n == self.moved(),
    {
        self.done
    }

    /// Where the next step starts in the file.
    pub fn position(&self) -> (r: Result<u64>)
        ensures
            match r {
                Ok(at) => at == self.start() + self.moved(),
                Err(e) => self.start() + self.moved() > u64::MAX && e@ == (ErrorView::Io {
                    kind: IoErrorKind::InvalidInput,
                    message: "offset overflow"@,
                }),
            },
    {
        if self.done as u64 > u64::MAX - self.offset {
            return Err(Error::io(IoErrorKind::InvalidInput, "offset overflow"));
        }
        Ok(self.offset + self.done as u64)
    }

    /// A step wrote `n` bytes. A step that writes nothing is an error.
    pub fn wrote(&mut self, n: usize) -> (r: Result<()>)
        requires
            old(self).wf(),
            n <= old(self).total() - old(self).moved(),
        ensures
            final(self).wf(),
            final(self).start() == old(self).start(),
            final(self).total() == old(self).total(),
            final(self).moved() == old(self).moved() + n,
            if n == 0 {
                r matches Err(e) && e@ == (ErrorView::Io {
                    kind: IoErrorKind::WriteZero,
                    message: "pwrite returned 0 before completing the buffer"@,
                })
            } else {
                r is Ok
            },
    {
        if n == 0 {
            return Err(
                Error::io(
                    IoErrorKind::WriteZero,
                    "pwrite returned 0 before completing the buffer",
                ),
            );
        }
        self.done = self.done + n;
        Ok(())
    }

    /// A step read `n` bytes. A step that reads nothing has met the end of the
    /// file too early.
    pub fn read(&mut self, n: usize) -> (r: Result<()>)
        requires
            old(self).wf(),
            n <= old(self).total() - old(self).moved(),
        ensures
            final(self).wf(),
            final(self).start() == old(self).start(),
            final(self).total() == old(self).total(),
            final(self).moved() == old(self).moved() + n,
            if n == 0 {
                r matches Err(e) && e@ == (ErrorView::Io {
                    kind: IoErrorKind::UnexpectedEof,
                    message: "pread returned 0 before completing the buffer"@,
                })
            } else {
                r is Ok
            },
    {
        if n == 0 {
            return Err(
                Error::io(
                    IoErrorKind::UnexpectedEof,
                    "pread returned 0 before completing the buffer",
                ),
            );
        }
        self.done = self.done + n;
        Ok(())
    }
}

} // verus!
