//! Paths of a file system that is rooted at a host directory.
//!
//! The engine names files by relative paths. This module decides where such a
//! path lies under the root, and refuses paths that would lead out of it.
use vstd::prelude::*;
use vstd::string::*;

use crate::encoding::text::{chars_of, same_text};
use crate::error::{invalid_format, Error, ErrorView, Result};

verus! {

/// The characters from `i` to `j` are a whole component of `path`.
pub open spec fn is_component(path: Seq<char>, i: int, j: int) -> bool {
    &&& 0 <= i <= j <= path.len()
    &&& i == 0 || path[i - 1] == '/'
    &&& j == path.len() || path[j] == '/'
    &&& forall|k: int| i <= k < j ==> path[k] != '/'
}

/// A component of `path` is `..`.
pub open spec fn leads_up(path: Seq<char>) -> bool {
    exists|i: int|
        is_component(path, i, i + 2) && #[trigger] path[i] == '.' && path[i + 1] == '.'
}

/// Why a path is refused, if so.
pub open spec fn path_refusal(path: Seq<char>) -> Option<ErrorView> {
    if path.len() == 0 {
        Some(invalid_format("LinuxVfs"@, "empty path"@))
    } else if path[0] == '/' {
        Some(
            invalid_format(
                "LinuxVfs"@,
                "absolute paths are not permitted; pass a relative name"@,
            ),
        )
    } else if leads_up(path) {
        Some(invalid_format("LinuxVfs"@, "path component outside the root is not permitted"@))
    } else {
        None
    }
}

/// Where a relative path lies under `root`.
pub open spec fn under(root: Seq<char>, path: Seq<char>) -> Seq<char> {
    if root.len() == 0 {
        path
    } else if root.last() == '/' {
        root + path
    } else {
        root + "/"@ + path
    }
}

/// Law: empty and absolute paths, and those with `..` between slashes, at the
/// start or at the end, are refused.
pub proof fn law_paths_out_of_the_root_are_refused(front: Seq<char>, back: Seq<char>)
    requires
        front.len() > 0 ==> front.last() == '/',
        back.len() > 0 ==> back[0] == '/',
    ensures
        path_refusal(front + seq!['.', '.'] + back) is Some,
        path_refusal(seq!['/'] + back) is Some,
        path_refusal(Seq::empty()) is Some,
{
    let path = front + seq!['.', '.'] + back;
    let i = front.len() as int;
    assert(path[i] == '.' && path[i + 1] == '.');
    assert(is_component(path, i, i + 2));
}

/// Law: every other path is resolved.
pub proof fn law_other_paths_are_accepted(path: Seq<char>)
    requires
        path.len() > 0,
        path[0] != '/',
        forall|i: int, j: int| #[trigger]
            is_component(path, i, j) ==> path.subrange(i, j) != seq!['.', '.'],
    ensures
        path_refusal(path) is None,
{
    if leads_up(path) {
        let i = choose|i: int|
            is_component(path, i, i + 2) && #[trigger] path[i] == '.' && path[i + 1] == '.';
        assert(path.subrange(i, i + 2) =~= seq!['.', '.']);
    }
}

/// Law: a resolved path is the root, a slash (unless the root ends in one), and
/// the path, so that no two paths are resolved to one.
pub proof fn law_resolved_path(root: Seq<char>, a: Seq<char>, b: Seq<char>)
    ensures
        ({
            let full = under(root, a);
            let n = full.len() - a.len();
            &&& full.subrange(0, root.len() as int) == root
            &&& full.subrange(n, full.len() as int) == a
            &&& root.len() > 0 ==> n > 0 && full[n - 1] == '/'
            &&& root.len() <= n <= root.len() + 1
            &&& n > root.len() ==> root.len() > 0 && root.last() != '/'
        }),
        under(root, a) == under(root, b) ==> a == b,
{
    reveal_strlit("/");
    let (x, y) = (under(root, a), under(root, b));
    let n = x.len() - a.len();
    assert(x.subrange(0, root.len() as int) =~= root);
    assert(x.subrange(n, x.len() as int) =~= a);
    assert(y.subrange(n, y.len() as int) =~= b);
}

/// Whether a component of the path is `..`.
fn goes_up(path: &Vec<char>) -> (r: bool)
    ensures
        r == leads_up(path@),
{
    let n: usize = path.len();
    let mut i: usize = 0;
    while i < n
        invariant
            i <= n,
            n == path@.len(),
            forall|k: int|
                0 <= k < i ==> !(is_component(path@, k, k + 2) && #[trigger] path@[k] == '.'
                    && path@[k + 1] == '.'),
        decreases n - i,
    {
        let starts: bool = i == 0 || path[i - 1] == '/';
        if starts && n - i >= 2 && path[i] == '.' && path[i + 1] == '.' && (n - i == 2 || path[i
            + 2] == '/') {
            assert(is_component(path@, i as int, i + 2));
            return true;
        }
        i += 1;
    }
    false
}

/// A file system rooted at a host directory: the part of it that deals with
/// paths.
#[derive(Debug, Clone)]
pub struct LinuxVfs {
    root: String,
}

impl View for LinuxVfs {
    type V = Seq<char>;

    closed spec fn view(&self) -> Seq<char> {
        self.root@
    }
}

impl LinuxVfs {
    /// Root the file system at `root`.
    pub fn new(root: &str) -> (vfs: LinuxVfs)
        ensures
            vfs@ == root@,
    {
        LinuxVfs { root: root.to_owned() }
    }

    /// Borrow the root directory.
    pub fn root(&self) -> (r: &str)
        ensures
            r@ == self@,
    {
        self.root.as_str()
    }

    /// Where `path` lies under the root. Empty and absolute paths and paths
    /// with a `..` component are refused.
    pub fn resolve(&self, path: &str) -> (r: Result<String>)
        ensures
            match path_refusal(path@) {
                Some(e) => r matches Err(x) && x@ == e,
                None => r matches Ok(full) && full@ == under(self@, path@),
            },
    {
        let cs: Vec<char> = chars_of(path);
        if cs.len() == 0 {
            return Err(Error::invalid_format_static("LinuxVfs", "empty path"));
        }
        if cs[0] == '/' {
            return Err(
                Error::invalid_format_static(
                    "LinuxVfs",
                    "absolute paths are not permitted; pass a relative name",
                ),
            );
        }
        if goes_up(&cs) {
            return Err(
                Error::invalid_format_static(
                    "LinuxVfs",
                    "path component outside the root is not permitted",
                ),
            );
        }
        let root: Vec<char> = chars_of(self.root.as_str());
        let mut full: String = String::new();
        full.append(self.root.as_str());
        if root.len() > 0 && root[root.len() - 1] != '/' {
            full.append("/");
        }
        full.append(path);
        assert(full@ =~= under(self@, path@));
        Ok(full)
    }

    /// The host directory that listing `dir` reads: the root itself for the
    /// empty path and for `.`.
    pub fn list_target(&self, dir: &str) -> (r: Result<String>)
        ensures
            dir@.len() == 0 || dir@ == "."@ ==> (r matches Ok(full) && full@ == self@),
            dir@.len() > 0 && dir@ != "."@ ==> (match path_refusal(dir@) {
                Some(e) => r matches Err(x) && x@ == e,
                None => r matches Ok(full) && full@ == under(self@, dir@),
            }),
    {
        if dir.unicode_len() == 0 || same_text(dir, ".") {
            return Ok(self.root.as_str().to_owned());
        }
        self.resolve(dir)
    }
}

} // verus!
