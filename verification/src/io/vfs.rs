//! Virtual file system: the seam between the engine and its storage.
//!
//! Higher layers are written against [`Vfs`] and [`VfsFile`]. [`MemVfs`] is
//! the in-memory implementation. Handles may alias (two handles on one path
//! see each other's writes), so the file system itself is passed to every
//! operation on a handle, and the contracts speak of its state.
use vstd::prelude::*;
use vstd::string::*;

use crate::encoding::text::{chars_of, has_prefix, same_text};
use crate::error::{Error, ErrorView, IoErrorKind, Result};

verus! {

/// State of a file system: which path names which file, and the bytes of
/// every file. A file that lost its name stays readable through its handles.
#[verifier::ext_equal]
pub struct FsState {
    /// Path to file identity.
    pub names: Map<Seq<char>, int>,
    /// File identity to contents.
    pub files: Map<int, Seq<u8>>,
}

impl FsState {
    /// The state after the bytes of file `id` became `bytes`.
    pub open spec fn with_bytes(self, id: int, bytes: Seq<u8>) -> FsState {
        FsState { files: self.files.insert(id, bytes), ..self }
    }

    /// The state after `path` lost its name.
    pub open spec fn without(self, path: Seq<char>) -> FsState {
        FsState { names: self.names.remove(path), ..self }
    }

    /// From `self` to `after`, only the bytes of file `id` changed.
    pub open spec fn only_changes(self, after: FsState, id: int) -> bool {
        after == self.with_bytes(id, after.files[id])
    }

    /// From `self` to `after`, something (or nothing) was appended to file
    /// `id`, and that is all.
    pub open spec fn grows_to(self, after: FsState, id: int) -> bool {
        &&& self.only_changes(after, id)
        &&& self.files[id].len() <= after.files[id].len()
        &&& after.files[id].subrange(0, self.files[id].len() as int) == self.files[id]
    }

    /// Growing twice is growing.
    pub proof fn lemma_grows_transitive(self, mid: FsState, after: FsState, id: int)
        requires
            self.grows_to(mid, id),
            mid.grows_to(after, id),
        ensures
            self.grows_to(after, id),
    {
        let n = self.files[id].len() as int;
        assert(after.files[id].subrange(0, n) =~= after.files[id].subrange(
            0,
            mid.files[id].len() as int,
        ).subrange(0, n));
        assert(after =~= self.with_bytes(id, after.files[id]));
    }

    /// Changing one file twice is changing it.
    pub proof fn lemma_changes_transitive(self, mid: FsState, after: FsState, id: int)
        requires
            self.only_changes(mid, id),
            mid.only_changes(after, id),
        ensures
            self.only_changes(after, id),
    {
        assert(after =~= self.with_bytes(id, after.files[id]));
    }

    /// Appending known bytes is growing.
    pub proof fn lemma_append_grows(self, id: int, data: Seq<u8>)
        requires
            self.files.dom().contains(id),
        ensures
            self.grows_to(self.with_bytes(id, self.files[id] + data), id),
            self.with_bytes(id, self.files[id]) == self,
    {
        let after = self.with_bytes(id, self.files[id] + data);
        assert(after.files[id].subrange(0, self.files[id].len() as int) =~= self.files[id]);
        assert(self.with_bytes(id, self.files[id]) =~= self);
    }

    /// Writing the bytes of a file twice is writing the later ones.
    pub proof fn lemma_rewrite(self, id: int, a: Seq<u8>, b: Seq<u8>)
        ensures
            self.with_bytes(id, a).with_bytes(id, b) == self.with_bytes(id, b),
    {
        assert(self.with_bytes(id, a).with_bytes(id, b) =~= self.with_bytes(id, b));
    }

    /// Law: a change to the bytes of one file is seen under every name of it, and
    /// under no other; and to take a name away changes no bytes, and no other name.
    pub proof fn law_one_file_changes(
        self,
        id: int,
        bytes: Seq<u8>,
        path: Seq<char>,
        other: Seq<char>,
    )
        ensures
            self.with_bytes(id, bytes).names == self.names,
            self.names[path] == id ==> self.with_bytes(id, bytes).content(path) == bytes,
            self.names[path] != id ==> self.with_bytes(id, bytes).content(path) == self.content(
                path,
            ),
            !self.without(path).names.dom().contains(path),
            other != path ==> (self.without(path).names.dom().contains(other)
                <==> self.names.dom().contains(other)) && self.without(path).content(other)
                == self.content(other),
            self.without(path).files == self.files,
    {
    }

    /// The bytes of the file that `path` names.
    pub open spec fn content(self, path: Seq<char>) -> Seq<u8> {
        self.files[self.names[path]]
    }
}

/// `bytes` with the range at `offset` replaced by `data`.
pub open spec fn overwrite(bytes: Seq<u8>, offset: int, data: Seq<u8>) -> Seq<u8> {
    bytes.subrange(0, offset) + data + bytes.subrange(offset + data.len(), bytes.len() as int)
}

/// Law: overwriting puts the data at its offset and leaves every other byte, and
/// the length, as they were.
pub proof fn law_overwrite_is_in_place(bytes: Seq<u8>, offset: int, data: Seq<u8>, i: int)
    requires
        0 <= offset,
        offset + data.len() <= bytes.len(),
        0 <= i < bytes.len(),
    ensures
        overwrite(bytes, offset, data).len() == bytes.len(),
        offset <= i < offset + data.len() ==> overwrite(bytes, offset, data)[i] == data[i - offset],
        !(offset <= i < offset + data.len()) ==> overwrite(bytes, offset, data)[i] == bytes[i],
{
}

/// A handle on one file.
///
/// The specification functions say what the executable ones do. They have no
/// meaning of their own by default: an implementation that is verified gives
/// them one, and one that is not has nothing to say in them.
pub trait VfsFile: Sized {
    /// The file system that the handle belongs to.
    type Fs;

    /// State of the file system.
    closed spec fn fs_state(fs: &Self::Fs) -> FsState {
        arbitrary()
    }

    /// The file system does what it is asked: an operation fails only where
    /// its contract names the reason.
    closed spec fn fs_reliable(fs: &Self::Fs) -> bool {
        arbitrary()
    }

    /// The bytes of each file as they were last made durable.
    closed spec fn fs_synced(fs: &Self::Fs) -> Map<int, Seq<u8>> {
        arbitrary()
    }

    /// Identity of the file. Two handles with one identity share their bytes.
    closed spec fn id(&self) -> int {
        arbitrary()
    }

    /// Append `data` to the file. Returns the offset at which the write
    /// landed. A failed append may leave part of the data behind.
    fn append(&self, fs: &mut Self::Fs, data: &[u8]) -> (r: Result<u64>)
        requires
            Self::fs_state(old(fs)).files.dom().contains(self.id()),
        ensures
            r matches Ok(at) ==> at == Self::fs_state(old(fs)).files[self.id()].len() && at
                + data@.len() <= u64::MAX && Self::fs_state(final(fs)) == Self::fs_state(old(fs)).with_bytes(
                self.id(),
                Self::fs_state(old(fs)).files[self.id()] + data@,
            ),
            r is Err ==> Self::fs_state(old(fs)).grows_to(Self::fs_state(final(fs)), self.id()),
            others_synced(Self::fs_synced(old(fs)), Self::fs_synced(final(fs)), self.id()),
            Self::fs_reliable(old(fs)) ==> r is Ok && Self::fs_reliable(final(fs)),
    ;

    /// Overwrite the bytes at `[offset, offset + data.len())` in place. The
    /// range must already lie within the file: this never extends the file.
    fn write_at(&self, fs: &mut Self::Fs, data: &[u8], offset: u64) -> (r: Result<()>)
        requires
            Self::fs_state(old(fs)).files.dom().contains(self.id()),
        ensures
            r is Ok ==> offset + data@.len() <= Self::fs_state(old(fs)).files[self.id()].len()
                && Self::fs_state(final(fs)) == Self::fs_state(old(fs)).with_bytes(
                self.id(),
                overwrite(Self::fs_state(old(fs)).files[self.id()], offset as int, data@),
            ),
            r is Err ==> Self::fs_state(old(fs)).only_changes(Self::fs_state(final(fs)), self.id())
                && Self::fs_state(final(fs)).files[self.id()].len() == Self::fs_state(
                old(fs),
            ).files[self.id()].len(),
            others_synced(Self::fs_synced(old(fs)), Self::fs_synced(final(fs)), self.id()),
            Self::fs_reliable(old(fs)) ==> Self::fs_reliable(final(fs)) && (r is Ok <==> offset
                + data@.len() <= Self::fs_state(old(fs)).files[self.id()].len()),
    ;

    /// Make the file's bytes durable.
    fn sync(&self, fs: &mut Self::Fs) -> (r: Result<()>)
        requires
            Self::fs_state(old(fs)).files.dom().contains(self.id()),
        ensures
            Self::fs_state(final(fs)) == Self::fs_state(old(fs)),
            r is Ok ==> Self::fs_synced(final(fs)) == Self::fs_synced(old(fs)).insert(
                self.id(),
                Self::fs_state(old(fs)).files[self.id()],
            ),
            others_synced(Self::fs_synced(old(fs)), Self::fs_synced(final(fs)), self.id()),
            Self::fs_reliable(old(fs)) ==> r is Ok && Self::fs_reliable(final(fs)),
    ;

    /// Read `buf.len()` bytes starting at `offset`. Short reads are an error.
    fn read_at(&self, fs: &Self::Fs, buf: &mut [u8], offset: u64) -> (r: Result<()>)
        requires
            Self::fs_state(fs).files.dom().contains(self.id()),
        ensures
            final(buf)@.len() == old(buf)@.len(),
            r is Ok ==> offset + old(buf)@.len() <= Self::fs_state(fs).files[self.id()].len()
                && final(buf)@ == Self::fs_state(fs).files[self.id()].subrange(
                offset as int,
                offset + old(buf)@.len(),
            ),
            r matches Err(e) ==> e is Io,
            Self::fs_reliable(fs) ==> (r is Ok <==> offset + old(buf)@.len() <= Self::fs_state(
                fs,
            ).files[self.id()].len()),
    ;

    /// Size of the file in bytes.
    fn size(&self, fs: &Self::Fs) -> (r: Result<u64>)
        requires
            Self::fs_state(fs).files.dom().contains(self.id()),
        ensures
            r matches Ok(n) ==> n == Self::fs_state(fs).files[self.id()].len(),
            r matches Err(e) ==> e is Io,
            Self::fs_reliable(fs) ==> r is Ok,
    ;
}

/// The bytes of the file behind `file`.
pub open spec fn bytes_of<F: VfsFile>(file: &F, fs: &F::Fs) -> Seq<u8> {
    F::fs_state(fs).files[file.id()]
}

/// `file` is a handle on a file of `fs`.
pub open spec fn is_open<F: VfsFile>(file: &F, fs: &F::Fs) -> bool {
    F::fs_state(fs).files.dom().contains(file.id())
}

/// All that the file `id` holds has been made durable.
pub open spec fn file_synced<F: VfsFile>(fs: &F::Fs, id: int) -> bool {
    F::fs_synced(fs).dom().contains(id) && F::fs_synced(fs)[id] == F::fs_state(fs).files[id]
}

/// What is durable of files other than `id` is as it was.
pub open spec fn others_synced(
    before: Map<int, Seq<u8>>,
    after: Map<int, Seq<u8>>,
    id: int,
) -> bool {
    after.remove(id) == before.remove(id)
}

/// What was durable of `files` still is.
pub open spec fn synced_kept(
    before: Map<int, Seq<u8>>,
    after: Map<int, Seq<u8>>,
    files: Map<int, Seq<u8>>,
) -> bool {
    forall|i: int| #[trigger]
        files.dom().contains(i) && before.dom().contains(i) ==> after.dom().contains(i) && after[i]
            == before[i]
}

/// Read `len` bytes starting at `offset` into a fresh vector.
pub fn read_vec<F: VfsFile>(file: &F, fs: &F::Fs, len: usize, offset: u64) -> (r: Result<Vec<u8>>)
    requires
        is_open(file, fs),
    ensures
        r matches Ok(v) ==> offset + len <= bytes_of(file, fs).len() && v@ == bytes_of(
            file,
            fs,
        ).subrange(offset as int, offset + len),
        r matches Err(e) ==> e is Io,
        F::fs_reliable(fs) ==> (r is Ok <==> offset + len <= bytes_of(file, fs).len()),
{
    let mut v: Vec<u8> = vec![0u8; len];
    match file.read_at(fs, v.as_mut_slice(), offset) {
        Ok(()) => Ok(v),
        Err(e) => Err(e),
    }
}

/// `path` is `dir`, a slash (unless `dir` ends in one), and `name`.
pub open spec fn join(dir: Seq<char>, name: Seq<char>) -> Seq<char> {
    dir_prefix(dir) + name
}

/// `dir` with a slash at its end.
pub open spec fn dir_prefix(dir: Seq<char>) -> Seq<char> {
    if dir.len() > 0 && dir.last() == '/' {
        dir
    } else {
        dir.push('/')
    }
}

/// Law: the path of a file in a directory is the directory, one slash, and the
/// name, so that one path has one name in a directory.
pub proof fn law_joined_path(dir: Seq<char>, a: Seq<char>, b: Seq<char>)
    ensures
        ({
            let path = join(dir, a);
            let n = path.len() - a.len();
            &&& path.subrange(0, dir.len() as int) == dir
            &&& path.subrange(n, path.len() as int) == a
            &&& n > 0 && path[n - 1] == '/'
            &&& dir.len() <= n <= dir.len() + 1
            &&& n == dir.len() <==> dir.len() > 0 && dir.last() == '/'
        }),
        join(dir, a) == join(dir, b) ==> a == b,
{
    let (x, y) = (join(dir, a), join(dir, b));
    let n = dir_prefix(dir).len() as int;
    assert(x.subrange(0, dir.len() as int) =~= dir);
    assert(x.subrange(n, x.len() as int) =~= a);
    assert(y.subrange(n, y.len() as int) =~= b);
}

/// `names` holds each name of a file directly inside `dir` once, and nothing
/// else.
pub open spec fn lists_dir(names: Seq<String>, state: FsState, dir: Seq<char>) -> bool {
    &&& forall|i: int|
        #![trigger names[i]]
        0 <= i < names.len() ==> state.names.dom().contains(join(dir, names[i]@))
            && !names[i]@.contains('/')
    &&& forall|name: Seq<char>|
        #![trigger join(dir, name)]
        state.names.dom().contains(join(dir, name)) && !name.contains('/') ==> exists|i: int|
            0 <= i < names.len() && #[trigger] names[i]@ == name
    &&& forall|i: int, j: int|
        #![trigger names[i], names[j]]
        0 <= i < j < names.len() ==> names[i]@ != names[j]@
}

/// A file system.
pub trait Vfs: Sized {
    /// File handle type returned by [`open_writable`](Vfs::open_writable) and
    /// [`open_readonly`](Vfs::open_readonly).
    type File: VfsFile<Fs = Self>;

    /// Open a file for append-only writes. Created if it does not exist.
    fn open_writable(&mut self, path: &str) -> (r: Result<Self::File>)
        ensures
            r matches Ok(f) ==> ({
                let before = Self::File::fs_state(old(self));
                let after = Self::File::fs_state(final(self));
                if before.names.dom().contains(path@) {
                    after == before && f.id() == before.names[path@]
                        && before.files.dom().contains(f.id())
                } else {
                    &&& !before.files.dom().contains(f.id())
                    &&& after.names == before.names.insert(path@, f.id())
                    &&& after.files == before.files.insert(f.id(), Seq::empty())
                }
            }),
            r is Err ==> Self::File::fs_state(final(self)) == Self::File::fs_state(old(self)),
            synced_kept(
                Self::File::fs_synced(old(self)),
                Self::File::fs_synced(final(self)),
                Self::File::fs_state(old(self)).files,
            ),
            Self::File::fs_reliable(old(self)) ==> r is Ok && Self::File::fs_reliable(final(self)),
    ;

    /// Open a file for positional read-only access.
    fn open_readonly(&self, path: &str) -> (r: Result<Self::File>)
        ensures
            r matches Ok(f) ==> ({
                let state = Self::File::fs_state(self);
                &&& state.names.dom().contains(path@)
                &&& f.id() == state.names[path@]
                &&& state.files.dom().contains(f.id())
            }),
            r matches Err(e) ==> e is Io,
            Self::File::fs_reliable(self) ==> (r is Ok <==> Self::File::fs_state(
                self,
            ).names.dom().contains(path@)),
    ;

    /// Atomically rename `from` to `to`. A file system that is not reliable may
    /// pass the request over.
    fn rename(&mut self, from: &str, to: &str) -> (r: Result<()>)
        ensures
            r is Ok ==> ({
                let before = Self::File::fs_state(old(self));
                let after = Self::File::fs_state(final(self));
                ||| before.names.dom().contains(from@) && after == (FsState {
                    names: before.names.remove(from@).insert(to@, before.names[from@]),
                    ..before
                })
                ||| !Self::File::fs_reliable(old(self)) && after == before
            }),
            Self::File::fs_synced(final(self)) == Self::File::fs_synced(old(self)),
            r is Err ==> Self::File::fs_state(final(self)) == Self::File::fs_state(old(self)),
            Self::File::fs_reliable(old(self)) ==> Self::File::fs_reliable(final(self)) && (r is Ok
                <==> Self::File::fs_state(old(self)).names.dom().contains(from@)),
    ;

    /// Remove a file. Removing a missing file is not an error. A file system
    /// that is not reliable may pass the request over.
    fn remove(&mut self, path: &str) -> (r: Result<()>)
        ensures
            r is Ok ==> ({
                let before = Self::File::fs_state(old(self));
                let after = Self::File::fs_state(final(self));
                ||| after == before.without(path@)
                ||| !Self::File::fs_reliable(old(self)) && after == before
            }),
            Self::File::fs_synced(final(self)) == Self::File::fs_synced(old(self)),
            r is Err ==> Self::File::fs_state(final(self)) == Self::File::fs_state(old(self)),
            Self::File::fs_reliable(old(self)) ==> r is Ok && Self::File::fs_reliable(final(self)),
    ;

    /// List the names of the files directly inside `dir`. Order is
    /// unspecified. A file system that is not reliable may give no name at all.
    fn list(&self, dir: &str) -> (r: Result<Vec<String>>)
        ensures
            r matches Ok(names) ==> lists_dir(names@, Self::File::fs_state(self), dir@) || (
            !Self::File::fs_reliable(self) && names@.len() == 0),
            Self::File::fs_reliable(self) ==> r is Ok,
    ;
}


// ----- In-memory implementation -----

/// In-memory file system.
///
/// A directory of names and a table of files. Opening one path twice gives
/// two handles on the same file.
#[derive(Debug)]
pub struct MemVfs {
    entries: Vec<(String, usize)>,
    table: Vec<Vec<u8>>,
}

/// Handle on a file of a [`MemVfs`].
#[derive(Debug, Clone, Copy)]
pub struct MemFile {
    index: usize,
}

/// The directory that a list of entries stands for: the last entry for a path
/// counts.
spec fn directory(entries: Seq<(String, usize)>) -> Map<Seq<char>, int>
    decreases entries.len(),
{
    if entries.len() == 0 {
        Map::empty()
    } else {
        directory(entries.drop_last()).insert(entries.last().0@, entries.last().1 as int)
    }
}

proof fn lemma_directory_push(entries: Seq<(String, usize)>, e: (String, usize))
    ensures
        directory(entries.push(e)) == directory(entries).insert(e.0@, e.1 as int),
{
    assert(entries.push(e).drop_last() =~= entries);
}

proof fn lemma_directory_step(entries: Seq<(String, usize)>, i: int)
    requires
        0 <= i < entries.len(),
    ensures
        directory(entries.subrange(0, i + 1)) == directory(entries.subrange(0, i)).insert(
            entries[i].0@,
            entries[i].1 as int,
        ),
{
    assert(entries.subrange(0, i + 1).drop_last() =~= entries.subrange(0, i));
}

/// A path is in the directory exactly if some entry names it.
proof fn lemma_directory_has(entries: Seq<(String, usize)>, path: Seq<char>)
    ensures
        directory(entries).dom().contains(path) <==> exists|i: int|
            0 <= i < entries.len() && #[trigger] entries[i].0@ == path,
    decreases entries.len(),
{
    if entries.len() > 0 {
        let rest = entries.drop_last();
        lemma_directory_has(rest, path);
        if entries.last().0@ == path {
            assert(entries[entries.len() - 1].0@ == path);
        } else if directory(rest).dom().contains(path) {
            let i = choose|i: int| 0 <= i < rest.len() && #[trigger] rest[i].0@ == path;
            assert(entries[i].0@ == path);
        } else {
            assert forall|i: int| 0 <= i < entries.len() implies #[trigger] entries[i].0@
                != path by {
                if i < rest.len() {
                    assert(rest[i].0@ == entries[i].0@);
                }
            }
        }
    }
}

impl MemVfs {
    /// State of the file system.
    pub closed spec fn state(&self) -> FsState {
        FsState {
            names: directory(self.entries@),
            files: Map::new(
                |i: int| 0 <= i < self.table@.len(),
                |i: int| self.table@[i]@,
            ),
        }
    }

    /// Every name stands for a file in the table.
    pub closed spec fn consistent(&self) -> bool {
        forall|i: int|
            0 <= i < self.entries@.len() ==> (#[trigger] self.entries@[i]).1 < self.table@.len()
    }

    /// Construct an empty in-memory file system.
    pub fn new() -> (vfs: MemVfs)
        ensures
            vfs.state() == (FsState { names: Map::empty(), files: Map::empty() }),
            vfs.consistent(),
    {
        let vfs = MemVfs { entries: Vec::new(), table: Vec::new() };
        assert(vfs.state() =~= (FsState { names: Map::empty(), files: Map::empty() }));
        vfs
    }

    /// Index of the last entry for `path`.
    fn find(&self, path: &str) -> (r: Option<usize>)
        ensures
            r matches Some(i) ==> i < self.entries@.len() && self.entries@[i as int].0@ == path@
                && directory(self.entries@).dom().contains(path@) && directory(
                self.entries@,
            )[path@] == self.entries@[i as int].1,
            r is None ==> !directory(self.entries@).dom().contains(path@),
    {
        let n: usize = self.entries.len();
        let mut i: usize = n;
        assert(self.entries@.subrange(0, n as int) =~= self.entries@);
        while i > 0
            invariant
                i <= n,
                n == self.entries@.len(),
                directory(self.entries@).dom().contains(path@) <==> directory(
                    self.entries@.subrange(0, i as int),
                ).dom().contains(path@),
                directory(self.entries@.subrange(0, i as int)).dom().contains(path@) ==> directory(
                    self.entries@,
                )[path@] == directory(self.entries@.subrange(0, i as int))[path@],
            decreases i,
        {
            i -= 1;
            proof {
                lemma_directory_step(self.entries@, i as int);
            }
            if same_text(self.entries[i].0.as_str(), path) {
                return Some(i);
            }
        }
        None
    }

    /// Drop every entry for `path`.
    fn unlink(&mut self, path: &str)
        ensures
            final(self).state() == (FsState {
                names: old(self).state().names.remove(path@),
                ..old(self).state()
            }),
            old(self).consistent() ==> final(self).consistent(),
            final(self).table == old(self).table,
    {
        let n: usize = self.entries.len();
        let mut kept: Vec<(String, usize)> = Vec::new();
        let mut i: usize = 0;
        let ghost entries = self.entries@;
        while i < n
            invariant
                i <= n,
                n == entries.len(),
                self.entries@ == entries,
                *self == *old(self),
                directory(kept@) == directory(entries.subrange(0, i as int)).remove(path@),
                old(self).consistent() ==> forall|j: int|
                    0 <= j < kept@.len() ==> (#[trigger] kept@[j]).1 < self.table@.len(),
            decreases n - i,
        {
            proof {
                lemma_directory_step(entries, i as int);
            }
            let same: bool = same_text(self.entries[i].0.as_str(), path);
            if !same {
                let name: String = self.entries[i].0.clone();
                let index: usize = self.entries[i].1;
                proof {
                    lemma_directory_push(kept@, (name, index));
                    assert(self.entries@[i as int].1 == index);
                }
                kept.push((name, index));
                assert(directory(kept@) =~= directory(entries.subrange(0, i + 1)).remove(path@));
            } else {
                assert(directory(kept@) =~= directory(entries.subrange(0, i + 1)).remove(path@));
            }
            i += 1;
        }
        assert(entries.subrange(0, n as int) =~= entries);
        self.entries = kept;
        assert(self.state() =~= (FsState {
            names: old(self).state().names.remove(path@),
            ..old(self).state()
        }));
    }
}

impl Default for MemVfs {
    fn default() -> (vfs: MemVfs)
        ensures
            vfs.state() == (FsState { names: Map::empty(), files: Map::empty() }),
            vfs.consistent(),
    {
        MemVfs::new()
    }
}

pub(crate) fn copy_into(buf: &mut [u8], data: &Vec<u8>, from: usize)
    requires
        from + old(buf)@.len() <= data@.len(),
    ensures
        final(buf)@ == data@.subrange(from as int, from + old(buf)@.len()),
{
    let n: usize = buf.len();
    let total: usize = data.len();
    let mut i: usize = 0;
    while i < n
        invariant
            i <= n,
            n == buf@.len(),
            n == old(buf)@.len(),
            from + n <= total,
            total == data@.len(),
            forall|j: int| 0 <= j < i ==> buf@[j] == data@[from + j],
        decreases n - i,
    {
        buf[i] = data[from + i];
        i += 1;
    }
    assert(buf@ =~= data@.subrange(from as int, from + n));
}

fn copy_over(bytes: &mut Vec<u8>, from: usize, data: &[u8])
    requires
        from + data@.len() <= old(bytes)@.len(),
    ensures
        final(bytes)@ == overwrite(old(bytes)@, from as int, data@),
{
    let n: usize = data.len();
    let total: usize = bytes.len();
    let ghost before = bytes@;
    let mut i: usize = 0;
    while i < n
        invariant
            i <= n,
            n == data@.len(),
            before == old(bytes)@,
            bytes@.len() == before.len(),
            from + n <= total,
            total == before.len(),
            forall|j: int| 0 <= j < before.len() ==> bytes@[j] == (if from <= j < from + i {
                data@[j - from]
            } else {
                before[j]
            }),
        decreases n - i,
    {
        bytes.set(from + i, data[i]);
        i += 1;
    }
    assert(bytes@ =~= overwrite(before, from as int, data@));
}

impl VfsFile for MemFile {
    type Fs = MemVfs;

    open spec fn fs_state(fs: &MemVfs) -> FsState {
        fs.state()
    }

    open spec fn fs_reliable(fs: &MemVfs) -> bool {
        fs.consistent()
    }

    /// What is in memory lasts as long as the file system does.
    open spec fn fs_synced(fs: &MemVfs) -> Map<int, Seq<u8>> {
        fs.state().files
    }

    closed spec fn id(&self) -> int {
        self.index as int
    }

    fn append(&self, fs: &mut MemVfs, data: &[u8]) -> (r: Result<u64>)
        ensures
            r is Ok,
    {
        let mut bytes: Vec<u8> = Vec::new();
        std::mem::swap(&mut bytes, &mut fs.table[self.index]);
        let at: u64 = bytes.len() as u64;
        crate::encoding::fixed::push_bytes(&mut bytes, data);
        assert(bytes.len() == at + data@.len());
        fs.table[self.index] = bytes;
        assert(fs.state() =~= old(fs).state().with_bytes(
            self.id(),
            old(fs).state().files[self.id()] + data@,
        ));
        assert(fs.state().files.remove(self.id()) =~= old(fs).state().files.remove(self.id()));
        Ok(at)
    }

    fn write_at(&self, fs: &mut MemVfs, data: &[u8], offset: u64) -> (r: Result<()>)
        ensures
            r is Ok <==> offset + data@.len() <= old(fs).state().files[self.id()].len(),
            r matches Err(e) ==> e is Io && *final(fs) == *old(fs),
    {
        let size: usize = fs.table[self.index].len();
        proof {
            assert(fs.state() =~= fs.state().with_bytes(
                self.id(),
                fs.state().files[self.id()],
            ));
        }
        if offset > usize::MAX as u64 {
            return Err(Error::io(IoErrorKind::InvalidInput, "MemFile: offset overflow"));
        }
        let off: usize = offset as usize;
        if data.len() > usize::MAX - off {
            return Err(Error::io(IoErrorKind::InvalidInput, "MemFile: offset + length overflow"));
        }
        if off + data.len() > size {
            return Err(
                Error::io(
                    IoErrorKind::InvalidInput,
                    "MemFile::write_at: range extends past file end",
                ),
            );
        }
        let mut bytes: Vec<u8> = Vec::new();
        std::mem::swap(&mut bytes, &mut fs.table[self.index]);
        copy_over(&mut bytes, off, data);
        fs.table[self.index] = bytes;
        assert(fs.state() =~= old(fs).state().with_bytes(
            self.id(),
            overwrite(old(fs).state().files[self.id()], offset as int, data@),
        ));
        assert(fs.state().files.remove(self.id()) =~= old(fs).state().files.remove(self.id()));
        Ok(())
    }

    fn sync(&self, fs: &mut MemVfs) -> (r: Result<()>)
        ensures
            r is Ok,
            *final(fs) == *old(fs),
    {
        assert(fs.state().files =~= fs.state().files.insert(
            self.id(),
            fs.state().files[self.id()],
        ));
        Ok(())
    }

    fn read_at(&self, fs: &MemVfs, buf: &mut [u8], offset: u64) -> (r: Result<()>)
        ensures
            r is Ok <==> offset + old(buf)@.len() <= fs.state().files[self.id()].len(),
            r matches Err(e) ==> final(buf)@ == old(buf)@ && (offset + old(buf)@.len()
                <= usize::MAX ==> e@ == (ErrorView::Io {
                kind: IoErrorKind::UnexpectedEof,
                message: "MemFile: short read"@,
            })),
    {
        let bytes: &Vec<u8> = &fs.table[self.index];
        let size: usize = bytes.len();
        if offset > usize::MAX as u64 {
            return Err(Error::io(IoErrorKind::InvalidInput, "MemFile: offset overflow"));
        }
        let off: usize = offset as usize;
        if buf.len() > usize::MAX - off {
            return Err(Error::io(IoErrorKind::InvalidInput, "MemFile: offset + length overflow"));
        }
        if off + buf.len() > size {
            return Err(Error::io(IoErrorKind::UnexpectedEof, "MemFile: short read"));
        }
        copy_into(buf, bytes, off);
        Ok(())
    }

    fn size(&self, fs: &MemVfs) -> (r: Result<u64>)
        ensures
            r is Ok,
    {
        Ok(fs.table[self.index].len() as u64)
    }
}

impl Vfs for MemVfs {
    type File = MemFile;

    fn open_writable(&mut self, path: &str) -> (r: Result<MemFile>) {
        match self.find(path) {
            Some(i) => {
                let index: usize = self.entries[i].1;
                if index >= self.table.len() {
                    return Err(Error::io(IoErrorKind::NotFound, "MemVfs: dangling entry"));
                }
                Ok(MemFile { index })
            },
            None => {
                let index: usize = self.table.len();
                let name: String = path.to_owned();
                proof {
                    lemma_directory_push(self.entries@, (name, index));
                }
                self.table.push(Vec::new());
                self.entries.push((name, index));
                proof {
                    let before = old(self).state();
                    assert(self.state().files =~= before.files.insert(index as int, Seq::empty()));
                }
                Ok(MemFile { index })
            },
        }
    }

    fn open_readonly(&self, path: &str) -> (r: Result<MemFile>)
        ensures
            r matches Err(e) ==> e@ matches ErrorView::Io { kind, message } && kind
                == IoErrorKind::NotFound && (self.consistent() ==> message
                == "MemVfs: missing file '"@ + path@ + "'"@),
    {
        match self.find(path) {
            Some(i) => {
                let index: usize = self.entries[i].1;
                if index >= self.table.len() {
                    return Err(Error::io(IoErrorKind::NotFound, "MemVfs: dangling entry"));
                }
                Ok(MemFile { index })
            },
            None => {
                let mut message: String = "MemVfs: missing file '".to_owned();
                message.append(path);
                message.append("'");
                Err(Error::io(IoErrorKind::NotFound, message.as_str()))
            },
        }
    }

    fn rename(&mut self, from: &str, to: &str) -> (r: Result<()>)
        ensures
            r is Ok ==> old(self).state().names.dom().contains(from@) && final(self).state() == (
            FsState {
                names: old(self).state().names.remove(from@).insert(
                    to@,
                    old(self).state().names[from@],
                ),
                ..old(self).state()
            }),
            r matches Err(e) ==> !old(self).state().names.dom().contains(from@) && e@ == (
            ErrorView::Io {
                kind: IoErrorKind::NotFound,
                message: "MemVfs: rename source '"@ + from@ + "' missing"@,
            }),
    {
        match self.find(from) {
            Some(i) => {
                let index: usize = self.entries[i].1;
                proof {
                    assert(self.entries@[i as int].1 == index);
                }
                self.unlink(from);
                let name: String = to.to_owned();
                proof {
                    lemma_directory_push(self.entries@, (name, index));
                }
                self.entries.push((name, index));
                assert(self.state() =~= (FsState {
                    names: old(self).state().names.remove(from@).insert(to@, index as int),
                    ..old(self).state()
                }));
                Ok(())
            },
            None => {
                let mut message: String = "MemVfs: rename source '".to_owned();
                message.append(from);
                message.append("' missing");
                Err(Error::io(IoErrorKind::NotFound, message.as_str()))
            },
        }
    }

    fn remove(&mut self, path: &str) -> (r: Result<()>)
        ensures
            r is Ok,
            final(self).state() == old(self).state().without(path@),
    {
        self.unlink(path);
        Ok(())
    }

    fn list(&self, dir: &str) -> (r: Result<Vec<String>>)
        ensures
            r matches Ok(names) && lists_dir(names@, self.state(), dir@),
    {
        let mut prefix: Vec<char> = chars_of(dir);
        if prefix.len() == 0 || prefix[prefix.len() - 1] != '/' {
            prefix.push('/');
        }
        assert(prefix@ == dir_prefix(dir@));
        let mut out: Vec<String> = Vec::new();
        let n: usize = self.entries.len();
        let mut i: usize = 0;
        let ghost state = self.state();
        while i < n
            invariant
                i <= n,
                n == self.entries@.len(),
                state == self.state(),
                prefix@ == dir_prefix(dir@),
                forall|k: int|
                    #![trigger out@[k]]
                    0 <= k < out@.len() ==> state.names.dom().contains(join(dir@, out@[k]@))
                        && !out@[k]@.contains('/'),
                forall|k: int, l: int|
                    #![trigger out@[k], out@[l]]
                    0 <= k < l < out@.len() ==> out@[k]@ != out@[l]@,
                forall|j: int, name: Seq<char>|
                    0 <= j < i && #[trigger] self.entries@[j].0@ == #[trigger] join(dir@, name)
                        && !name.contains('/') ==> exists|k: int|
                        0 <= k < out@.len() && #[trigger] out@[k]@ == name,
            decreases n - i,
        {
            let text: &str = self.entries[i].0.as_str();
            let cs: Vec<char> = chars_of(text);
            let ghost seen = out@;
            if has_prefix(&cs, &prefix) {
                let name: &str = text.substring_char(prefix.len(), cs.len());
                assert(text@ =~= join(dir@, name@));
                let ns: Vec<char> = chars_of(name);
                if !has_slash(&ns) && !holds(&out, name) {
                    proof {
                        lemma_directory_has(self.entries@, text@);
                        assert(self.entries@[i as int].0@ == text@);
                    }
                    out.push(name.to_owned());
                    assert(out@[out@.len() - 1]@ == name@);
                }
                assert(!name@.contains('/') ==> exists|k: int|
                    0 <= k < out@.len() && #[trigger] out@[k]@ == name@);
                assert forall|other: Seq<char>| text@ == #[trigger] join(dir@, other) implies other
                    == name@ by {
                    assert(other =~= text@.subrange(
                        dir_prefix(dir@).len() as int,
                        text@.len() as int,
                    ));
                }
            } else {
                assert forall|other: Seq<char>| text@ != #[trigger] join(dir@, other) by {
                    if text@ == join(dir@, other) {
                        assert(text@.subrange(0, prefix@.len() as int) =~= prefix@);
                    }
                }
            }
            assert forall|j: int, name: Seq<char>|
                0 <= j < i + 1 && #[trigger] self.entries@[j].0@ == #[trigger] join(dir@, name)
                    && !name.contains('/') implies exists|k: int|
                0 <= k < out@.len() && #[trigger] out@[k]@ == name by {
                if j < i {
                    let k = choose|k: int| 0 <= k < seen.len() && #[trigger] seen[k]@ == name;
                    assert(out@[k]@ == name);
                }
            }
            i += 1;
        }
        assert forall|name: Seq<char>|
            #![trigger join(dir@, name)]
            state.names.dom().contains(join(dir@, name)) && !name.contains('/') implies exists|
            k: int,
        |
            0 <= k < out@.len() && #[trigger] out@[k]@ == name by {
            lemma_directory_has(self.entries@, join(dir@, name));
            let j = choose|j: int|
                0 <= j < self.entries@.len() && #[trigger] self.entries@[j].0@ == join(dir@, name);
            assert(self.entries@[j].0@ == join(dir@, name));
        }
        Ok(out)
    }
}

/// Whether some character is a slash.
fn has_slash(cs: &Vec<char>) -> (r: bool)
    ensures
        r == cs@.contains('/'),
{
    let mut i: usize = 0;
    while i < cs.len()
        invariant
            i <= cs@.len(),
            forall|j: int| 0 <= j < i ==> cs@[j] != '/',
        decreases cs@.len() - i,
    {
        if cs[i] == '/' {
            return true;
        }
        i += 1;
    }
    false
}

/// Whether `name` is among `names`.
fn holds(names: &Vec<String>, name: &str) -> (r: bool)
    ensures
        r == exists|i: int| 0 <= i < names@.len() && #[trigger] names@[i]@ == name@,
{
    let mut i: usize = 0;
    while i < names.len()
        invariant
            i <= names@.len(),
            forall|j: int| 0 <= j < i ==> #[trigger] names@[j]@ != name@,
        decreases names@.len() - i,
    {
        if same_text(names[i].as_str(), name) {
            return true;
        }
        i += 1;
    }
    false
}

} // verus!
