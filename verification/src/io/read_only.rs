//! A read-only file system around one string of bytes.
//!
//! It feeds arbitrary bytes to a parser: whatever path is opened, the file
//! behind it holds the bytes.
use vstd::prelude::*;
use vstd::slice::slice_to_vec;

use crate::error::{Error, ErrorView, IoErrorKind, Result};
use crate::io::vfs::{FsState, Vfs, VfsFile};

verus! {

/// Handle on the one file.
#[derive(Debug, Clone, Copy)]
pub struct BorrowedFile;

/// A file system that hands out a single read-only file.
#[derive(Debug, Clone)]
pub struct OneFileVfs {
    bytes: Vec<u8>,
}

impl View for OneFileVfs {
    type V = Seq<u8>;

    closed spec fn view(&self) -> Seq<u8> {
        self.bytes@
    }
}

impl OneFileVfs {
    /// Wrap `bytes`.
    pub fn new(bytes: &[u8]) -> (vfs: OneFileVfs)
        ensures
            vfs@ == bytes@,
    {
        OneFileVfs { bytes: slice_to_vec(bytes) }
    }
}

/// The error of a request to write.
pub open spec fn read_only_error(message: Seq<char>) -> ErrorView {
    ErrorView::Io { kind: IoErrorKind::Unsupported, message }
}

/// Every path names the one file.
pub open spec fn one_file(bytes: Seq<u8>) -> FsState {
    FsState {
        names: Map::new(|p: Seq<char>| true, |p: Seq<char>| 0int),
        files: Map::empty().insert(0, bytes),
    }
}

/// Law: under whatever path, the one file is found, with all of its bytes.
pub proof fn law_every_path_is_the_file(bytes: Seq<u8>, path: Seq<char>, other: Seq<char>)
    ensures
        one_file(bytes).names.dom().contains(path),
        one_file(bytes).content(path) == bytes,
        one_file(bytes).names[path] == one_file(bytes).names[other],
        one_file(bytes).files.dom().contains(one_file(bytes).names[path]),
{
}

impl VfsFile for BorrowedFile {
    type Fs = OneFileVfs;

    open spec fn fs_state(fs: &OneFileVfs) -> FsState {
        one_file(fs@)
    }

    /// Nothing can be written.
    open spec fn fs_reliable(fs: &OneFileVfs) -> bool {
        false
    }

    /// The bytes are there as long as the file system is.
    open spec fn fs_synced(fs: &OneFileVfs) -> Map<int, Seq<u8>> {
        one_file(fs@).files
    }

    open spec fn id(&self) -> int {
        0
    }

    fn append(&self, fs: &mut OneFileVfs, data: &[u8]) -> (r: Result<u64>)
        ensures
            r matches Err(e) && e@ == read_only_error("BorrowedFile is read-only"@),
            *final(fs) == *old(fs),
    {
        let ghost state = one_file(fs@);
        assert(state =~= state.with_bytes(0, state.files[0]));
        assert(state.files[0].subrange(0, state.files[0].len() as int) =~= state.files[0]);
        Err(Error::io(IoErrorKind::Unsupported, "BorrowedFile is read-only"))
    }

    fn write_at(&self, fs: &mut OneFileVfs, data: &[u8], offset: u64) -> (r: Result<()>)
        ensures
            r matches Err(e) && e@ == read_only_error("BorrowedFile is read-only"@),
            *final(fs) == *old(fs),
    {
        let ghost state = one_file(fs@);
        assert(state =~= state.with_bytes(0, state.files[0]));
        Err(Error::io(IoErrorKind::Unsupported, "BorrowedFile is read-only"))
    }

    fn sync(&self, fs: &mut OneFileVfs) -> (r: Result<()>)
        ensures
            r is Ok,
            *final(fs) == *old(fs),
    {
        assert(one_file(fs@).files =~= one_file(fs@).files.insert(0, fs@));
        Ok(())
    }

    fn read_at(&self, fs: &OneFileVfs, buf: &mut [u8], offset: u64) -> (r: Result<()>)
        ensures
            r is Ok <==> offset + old(buf)@.len() <= fs@.len(),
    {
        let size: usize = fs.bytes.len();
        if offset > usize::MAX as u64 {
            return Err(Error::io(IoErrorKind::InvalidInput, "offset overflow"));
        }
        let from: usize = offset as usize;
        if buf.len() > usize::MAX - from {
            return Err(Error::io(IoErrorKind::InvalidInput, "offset + length overflow"));
        }
        if from + buf.len() > size {
            return Err(Error::io(IoErrorKind::UnexpectedEof, "BorrowedFile: short read"));
        }
        crate::io::vfs::copy_into(buf, &fs.bytes, from);
        Ok(())
    }

    fn size(&self, fs: &OneFileVfs) -> (r: Result<u64>)
        ensures
            r == Ok::<u64, Error>(fs@.len() as u64),
    {
        Ok(fs.bytes.len() as u64)
    }
}

impl Vfs for OneFileVfs {
    type File = BorrowedFile;

    fn open_writable(&mut self, path: &str) -> (r: Result<BorrowedFile>)
        ensures
            r matches Err(e) && e@ == read_only_error("OneFileVfs is read-only"@),
            *final(self) == *old(self),
    {
        Err(Error::io(IoErrorKind::Unsupported, "OneFileVfs is read-only"))
    }

    fn open_readonly(&self, path: &str) -> (r: Result<BorrowedFile>)
        ensures
            r is Ok,
    {
        Ok(BorrowedFile)
    }

    /// Every path names the file whatever is asked, so there is nothing to do.
    fn rename(&mut self, from: &str, to: &str) -> (r: Result<()>)
        ensures
            r is Ok,
            *final(self) == *old(self),
    {
        Ok(())
    }

    /// The file stays under every path.
    fn remove(&mut self, path: &str) -> (r: Result<()>)
        ensures
            r is Ok,
            *final(self) == *old(self),
    {
        Ok(())
    }

    /// No directory lists the file.
    fn list(&self, dir: &str) -> (r: Result<Vec<String>>)
        ensures
            r matches Ok(names) && names@.len() == 0,
    {
        Ok(Vec::new())
    }
}

} // verus!
