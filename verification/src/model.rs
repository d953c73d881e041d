//! The mathematical model of a filesystem tree, and the specification of
//! every primitive operation over it.
//!
//! A tree is a map from a path — a sequence of name segments — to a node,
//! which is either a directory or a file's byte content.  A well-formed tree
//! always contains the root (the empty path) as a directory, and the parent
//! of every non-root path as a directory.

use vstd::prelude::*;

use crate::errors::VfsError;

verus! {

/// A node of the modelled tree: a directory, or a file's byte content.
pub enum FsNode {
    Dir,
    File(Seq<u8>),
}

/// The model of a whole filesystem: path segments to node.
pub type FsTree = Map<Seq<Seq<char>>, FsNode>;

/// A well-formed tree: finitely many nodes, the root present as a directory,
/// and every non-root node hanging under a parent directory.
pub open spec fn tree_wf(t: FsTree) -> bool {
    &&& t.dom().finite()
    &&& t.contains_key(Seq::empty())
    &&& t[Seq::empty()] is Dir
    &&& forall|k: Seq<Seq<char>>|
        #[trigger] t.contains_key(k) && k.len() > 0 ==> t.contains_key(k.drop_last())
            && t[k.drop_last()] is Dir
}

/// Whether `p` is a (not necessarily strict) prefix of `k`.
pub open spec fn is_path_prefix(p: Seq<Seq<char>>, k: Seq<Seq<char>>) -> bool {
    p.len() <= k.len() && k.take(p.len() as int) == p
}

/// The index of the first `/` in `s`, or `s.len()` if there is none.
pub open spec fn first_slash(s: Seq<char>) -> int
    decreases s.len(),
{
    if s.len() == 0 {
        0
    } else if s[0] == '/' {
        0
    } else {
        1 + first_slash(s.drop_first())
    }
}

/// `m` is the position of the first `/` iff nothing before it is a `/` and
/// either a `/` stands at `m` or `m` is the end.
pub proof fn lemma_first_slash_at(s: Seq<char>, m: int)
    requires
        0 <= m <= s.len(),
        forall|j: int| 0 <= j < m ==> s[j] != '/',
        m < s.len() ==> s[m] == '/',
    ensures
        first_slash(s) == m,
    decreases s.len(),
{
    if s.len() != 0 && s[0] != '/' {
        assert(m > 0);
        lemma_first_slash_at(s.drop_first(), m - 1);
    }
}

/// The segments of a path string: split on `/`, dropping empty pieces,
/// so that `""` denotes the root and a leading `/` is immaterial.
pub open spec fn segments_of(s: Seq<char>) -> Seq<Seq<char>>
    decreases s.len(),
{
    if s.len() == 0 {
        Seq::empty()
    } else {
        let i = first_slash(s);
        let head: Seq<Seq<char>> = if i == 0 {
            Seq::empty()
        } else {
            seq![s.take(i)]
        };
        if 0 <= i < s.len() {
            head + segments_of(s.skip(i + 1))
        } else {
            head
        }
    }
}

/// A path rendered back to text: its segments joined by `/`.
pub open spec fn display_path(p: Seq<Seq<char>>) -> Seq<char>
    decreases p.len(),
{
    if p.len() == 0 {
        Seq::empty()
    } else if p.len() == 1 {
        p[0]
    } else {
        display_path(p.drop_last()) + seq!['/'] + p.last()
    }
}

/// The content of the file at `p` (arbitrary if `p` is not a file).
pub open spec fn file_bytes(t: FsTree, p: Seq<Seq<char>>) -> Seq<u8> {
    t[p]->File_0
}

/// Committing `data` into `content` at position `pos`: bytes before the
/// cursor are kept, overlapped bytes are overwritten, and any tail beyond
/// the written region survives.  A cursor past the end writes at the end.
pub open spec fn splice_bytes(content: Seq<u8>, pos: int, data: Seq<u8>) -> Seq<u8> {
    let at = if pos <= content.len() {
        pos
    } else {
        content.len() as int
    };
    let tail = if at + data.len() <= content.len() {
        content.skip(at + data.len())
    } else {
        Seq::empty()
    };
    content.take(at) + data + tail
}

/// Where the cursor stands after such a commit.
pub open spec fn splice_end(content: Seq<u8>, pos: int, data: Seq<u8>) -> int {
    (if pos <= content.len() {
        pos
    } else {
        content.len() as int
    }) + data.len()
}

// ---------------------------------------------------------------------------
// Error shapes
// ---------------------------------------------------------------------------

pub open spec fn err_not_found(e: VfsError, p: Seq<Seq<char>>) -> bool {
    e matches VfsError::FileNotFound { path } && path@ == display_path(p)
}

pub open spec fn err_other(e: VfsError, msg: Seq<char>) -> bool {
    e matches VfsError::Other { message } && message@ == msg
}

pub open spec fn msg_already_exists() -> Seq<char> {
    "path already exists"@
}

pub open spec fn msg_is_directory() -> Seq<char> {
    "path is a directory"@
}

pub open spec fn msg_is_file() -> Seq<char> {
    "path is a file"@
}

pub open spec fn msg_not_empty() -> Seq<char> {
    "directory is not empty"@
}

pub open spec fn msg_root() -> Seq<char> {
    "cannot remove the root directory"@
}

// ---------------------------------------------------------------------------
// Primitive operations: success conditions, transitions, error shapes
// ---------------------------------------------------------------------------

/// `create_dir` succeeds exactly on a fresh non-root path under an existing
/// parent directory.
pub open spec fn can_create_dir(t: FsTree, p: Seq<Seq<char>>) -> bool {
    &&& !t.contains_key(p)
    &&& p.len() > 0
    &&& t.contains_key(p.drop_last())
    &&& t[p.drop_last()] is Dir
}

pub open spec fn create_dir_error(t: FsTree, p: Seq<Seq<char>>, e: VfsError) -> bool {
    if t.contains_key(p) {
        err_other(e, msg_already_exists())
    } else {
        err_not_found(e, p.drop_last())
    }
}

/// `open_file` succeeds exactly on an existing file; a missing path and a
/// directory both report `FileNotFound`.
pub open spec fn can_open_file(t: FsTree, p: Seq<Seq<char>>) -> bool {
    t.contains_key(p) && t[p] is File
}

/// `create_file` (and `append_file`) succeed on an existing file or on a
/// fresh non-root path under an existing parent directory.
pub open spec fn can_create_file(t: FsTree, p: Seq<Seq<char>>) -> bool {
    ||| (t.contains_key(p) && t[p] is File)
    ||| (!t.contains_key(p) && p.len() > 0 && t.contains_key(p.drop_last()) && t[p.drop_last()]
        is Dir)
}

pub open spec fn create_file_error(t: FsTree, p: Seq<Seq<char>>, e: VfsError) -> bool {
    if t.contains_key(p) {
        err_other(e, msg_is_directory())
    } else {
        err_not_found(e, p.drop_last())
    }
}

pub open spec fn can_remove_file(t: FsTree, p: Seq<Seq<char>>) -> bool {
    t.contains_key(p) && t[p] is File
}

pub open spec fn remove_file_error(t: FsTree, p: Seq<Seq<char>>, e: VfsError) -> bool {
    if !t.contains_key(p) {
        err_not_found(e, p)
    } else {
        err_other(e, msg_is_directory())
    }
}

/// A directory is empty when no name is a child of it.
pub open spec fn has_no_children(t: FsTree, p: Seq<Seq<char>>) -> bool {
    forall|n: Seq<char>| !t.contains_key(#[trigger] p.push(n))
}

/// `remove_dir` succeeds exactly on an existing, empty, non-root directory.
pub open spec fn can_remove_dir(t: FsTree, p: Seq<Seq<char>>) -> bool {
    &&& t.contains_key(p)
    &&& t[p] is Dir
    &&& p.len() > 0
    &&& has_no_children(t, p)
}

pub open spec fn remove_dir_error(t: FsTree, p: Seq<Seq<char>>, e: VfsError) -> bool {
    if !t.contains_key(p) {
        err_not_found(e, p)
    } else if t[p] is File {
        err_other(e, msg_is_file())
    } else if p.len() == 0 {
        err_other(e, msg_root())
    } else {
        err_other(e, msg_not_empty())
    }
}

pub open spec fn can_write_file(t: FsTree, p: Seq<Seq<char>>) -> bool {
    t.contains_key(p) && t[p] is File
}

pub open spec fn write_file_error(t: FsTree, p: Seq<Seq<char>>, e: VfsError) -> bool {
    if !t.contains_key(p) {
        err_not_found(e, p)
    } else {
        err_other(e, msg_is_directory())
    }
}

/// What a directory listing must deliver: every listed name is a child,
/// every child is listed, and no name repeats.
pub open spec fn dir_children_listed(t: FsTree, p: Seq<Seq<char>>, names: Seq<Seq<char>>) -> bool {
    &&& forall|i: int| 0 <= i < names.len() ==> t.contains_key(#[trigger] p.push(names[i]))
    &&& forall|n: Seq<char>| t.contains_key(#[trigger] p.push(n)) ==> names.contains(n)
    &&& forall|i: int, j: int| 0 <= i < j < names.len() ==> names[i] != names[j]
}

// ---------------------------------------------------------------------------
// Composite operations
// ---------------------------------------------------------------------------

/// One walk of `create_dir_all` from prefix length `i` on: an existing
/// prefix is kept whatever it is, a missing one is created under a
/// directory parent, and a missing one under anything else stops the walk.
/// The result pairs the final tree with `None` on success, or `Some(j)`
/// where the creation of the `j`-long prefix failed.
pub open spec fn create_all_from(t: FsTree, p: Seq<Seq<char>>, i: int) -> (FsTree, Option<int>)
    decreases p.len() + 1 - i,
{
    if i < 1 || i > p.len() {
        (t, None::<int>)
    } else {
        let q = p.take(i);
        if t.contains_key(q) {
            create_all_from(t, p, i + 1)
        } else if t.contains_key(q.drop_last()) && t[q.drop_last()] is Dir {
            create_all_from(t.insert(q, FsNode::Dir), p, i + 1)
        } else {
            (t, Some(i))
        }
    }
}

/// The keys of the subtree rooted at `p`, `p` itself included.
pub open spec fn subtree_keys(t: FsTree, p: Seq<Seq<char>>) -> Set<Seq<Seq<char>>> {
    t.dom().filter(|k: Seq<Seq<char>>| is_path_prefix(p, k))
}

/// The tree with the whole subtree rooted at `p` cut away.
pub open spec fn prune(t: FsTree, p: Seq<Seq<char>>) -> FsTree {
    t.remove_keys(subtree_keys(t, p))
}

/// In a well-formed tree, a strict extension of a present path `p` implies
/// that `p`'s child on the way to it is present as well.
pub proof fn lemma_descendant_has_child(t: FsTree, p: Seq<Seq<char>>, k: Seq<Seq<char>>)
    requires
        tree_wf(t),
        t.contains_key(k),
        is_path_prefix(p, k),
        k.len() > p.len(),
    ensures
        t.contains_key(p.push(k[p.len() as int])),
    decreases k.len(),
{
    if k.len() == p.len() + 1 {
        assert(p.push(k[p.len() as int]) =~= k);
    } else {
        assert(t.contains_key(k.drop_last()));
        assert(k.drop_last().take(p.len() as int) =~= k.take(p.len() as int));
        lemma_descendant_has_child(t, p, k.drop_last());
    }
}

} // verus!
