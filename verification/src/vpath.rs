//! The backend capability contract, the filesystem handle, and the path
//! handle with its primitive and composite operations.

use vstd::prelude::*;
use vstd::set_lib::lemma_len_subset;

use crate::errors::ResultExt;
use crate::errors::VfsError;
use crate::io::FileReader;
use crate::io::FileWriter;
use crate::model::can_create_dir;
use crate::model::can_create_file;
use crate::model::can_open_file;
use crate::model::can_remove_dir;
use crate::model::can_remove_file;
use crate::model::can_write_file;
use crate::model::create_all_from;
use crate::model::create_dir_error;
use crate::model::create_file_error;
use crate::model::dir_children_listed;
use crate::model::err_not_found;
use crate::model::err_other;
use crate::model::file_bytes;
use crate::model::has_no_children;
use crate::model::is_path_prefix;
use crate::model::lemma_descendant_has_child;
use crate::model::msg_root;
use crate::model::prune;
use crate::model::remove_dir_error;
use crate::model::remove_file_error;
use crate::model::segments_of;
use crate::model::splice_bytes;
use crate::model::splice_end;
use crate::model::subtree_keys;
use crate::model::tree_wf;
use crate::model::write_file_error;
use crate::model::FsNode;
use crate::model::FsTree;
use crate::paths::push_seg;
use crate::paths::split_path;

verus! {

/// What kind of node a path names.
#[derive(Copy, Clone, Debug, PartialEq, Eq, Structural)]
pub enum VFileType {
    File,
    Directory,
}

/// What a path looks like at query time: its kind and its byte length
/// (zero for a directory).
#[derive(Copy, Clone, Debug, PartialEq, Eq, Structural)]
pub struct VMetadata {
    pub file_type: VFileType,
    pub len: u64,
}

/// Whether `m` describes the node `n`.
pub open spec fn metadata_matches(n: FsNode, m: VMetadata) -> bool {
    match n {
        FsNode::Dir => m.file_type == VFileType::Directory && m.len == 0,
        FsNode::File(bytes) => m.file_type == VFileType::File && m.len == bytes.len(),
    }
}

/// The capability contract every storage backend implements.  Paths are
/// handed to a backend already resolved into their name segments; every
/// operation is specified against the backend's modelled tree.
pub trait VFS: Sized {
    /// The modelled tree behind the backend.
    spec fn model(&self) -> FsTree;

    /// The backend's internal invariant.
    spec fn inv(&self) -> bool;

    /// A valid backend always models a well-formed tree.
    proof fn inv_tree_wf(&self)
        requires
            self.inv(),
        ensures
            tree_wf(self.model()),
    ;

    /// The names of the immediate children of a directory, each exactly
    /// once, in unspecified order.
    fn read_dir(&self, path: &Vec<String>) -> (r: Result<Vec<String>, VfsError>)
        requires
            self.inv(),
        ensures
            ({
                let t = self.model();
                let p = path.deep_view();
                match r {
                    Ok(names) => t.contains_key(p) && t[p] is Dir && dir_children_listed(
                        t,
                        p,
                        names.deep_view(),
                    ),
                    Err(e) => !(t.contains_key(p) && t[p] is Dir) && err_not_found(e, p),
                }
            }),
    ;

    /// Create exactly one new directory at `path`.
    fn create_dir(&mut self, path: &Vec<String>) -> (r: Result<(), VfsError>)
        requires
            old(self).inv(),
        ensures
            final(self).inv(),
            ({
                let t = old(self).model();
                let p = path.deep_view();
                if can_create_dir(t, p) {
                    r is Ok && final(self).model() == t.insert(p, FsNode::Dir)
                } else {
                    &&& final(self).model() == t
                    &&& r matches Err(e) && create_dir_error(t, p, e)
                }
            }),
    ;

    /// An independent snapshot reader over the file at `path`.
    fn open_file(&self, path: &Vec<String>) -> (r: Result<FileReader, VfsError>)
        requires
            self.inv(),
        ensures
            ({
                let t = self.model();
                let p = path.deep_view();
                if can_open_file(t, p) {
                    r matches Ok(rd) && rd.bytes() == file_bytes(t, p) && rd.cursor() == 0
                        && rd.wf()
                } else {
                    r matches Err(e) && err_not_found(e, p)
                }
            }),
    ;

    /// An exclusive writer over a newly-truncated file at `path`, created
    /// if absent.
    fn create_file(&mut self, path: &Vec<String>) -> (r: Result<FileWriter, VfsError>)
        requires
            old(self).inv(),
        ensures
            final(self).inv(),
            ({
                let t = old(self).model();
                let p = path.deep_view();
                if can_create_file(t, p) {
                    &&& r matches Ok(w) && w.target() == p && w.cursor() == 0
                    &&& final(self).model() == t.insert(p, FsNode::File(Seq::empty()))
                } else {
                    &&& final(self).model() == t
                    &&& r matches Err(e) && create_file_error(t, p, e)
                }
            }),
    ;

    /// An exclusive writer positioned at end-of-content, the file created
    /// empty if absent.
    fn append_file(&mut self, path: &Vec<String>) -> (r: Result<FileWriter, VfsError>)
        requires
            old(self).inv(),
        ensures
            final(self).inv(),
            ({
                let t = old(self).model();
                let p = path.deep_view();
                if can_create_file(t, p) {
                    r matches Ok(w) && w.target() == p && (if t.contains_key(p) {
                        final(self).model() == t && w.cursor() == file_bytes(t, p).len()
                    } else {
                        final(self).model() == t.insert(p, FsNode::File(Seq::empty()))
                            && w.cursor() == 0
                    })
                } else {
                    &&& final(self).model() == t
                    &&& r matches Err(e) && create_file_error(t, p, e)
                }
            }),
    ;

    /// Commit `data` into the file at `path` at position `pos`.
    fn write_file(&mut self, path: &Vec<String>, pos: usize, data: &[u8]) -> (r: Result<
        usize,
        VfsError,
    >)
        requires
            old(self).inv(),
        ensures
            final(self).inv(),
            ({
                let t = old(self).model();
                let p = path.deep_view();
                if can_write_file(t, p) {
                    &&& r matches Ok(end) && end == splice_end(file_bytes(t, p), pos as int, data@)
                    &&& final(self).model() == t.insert(
                        p,
                        FsNode::File(splice_bytes(file_bytes(t, p), pos as int, data@)),
                    )
                } else {
                    &&& final(self).model() == t
                    &&& r matches Err(e) && write_file_error(t, p, e)
                }
            }),
    ;

    /// The kind and length of the node at `path`.
    fn metadata(&self, path: &Vec<String>) -> (r: Result<VMetadata, VfsError>)
        requires
            self.inv(),
        ensures
            ({
                let t = self.model();
                let p = path.deep_view();
                match r {
                    Ok(m) => t.contains_key(p) && metadata_matches(t[p], m),
                    Err(e) => !t.contains_key(p) && err_not_found(e, p),
                }
            }),
    ;

    /// Whether anything lives at `path`.  Never fails.
    fn path_exists(&self, path: &Vec<String>) -> (r: bool)
        requires
            self.inv(),
        ensures
            r == self.model().contains_key(path.deep_view()),
    ;

    /// Remove the file at `path`.
    fn remove_file(&mut self, path: &Vec<String>) -> (r: Result<(), VfsError>)
        requires
            old(self).inv(),
        ensures
            final(self).inv(),
            ({
                let t = old(self).model();
                let p = path.deep_view();
                if can_remove_file(t, p) {
                    r is Ok && final(self).model() == t.remove(p)
                } else {
                    &&& final(self).model() == t
                    &&& r matches Err(e) && remove_file_error(t, p, e)
                }
            }),
    ;

    /// Remove the empty, non-root directory at `path`.
    fn remove_dir(&mut self, path: &Vec<String>) -> (r: Result<(), VfsError>)
        requires
            old(self).inv(),
        ensures
            final(self).inv(),
            ({
                let t = old(self).model();
                let p = path.deep_view();
                if can_remove_dir(t, p) {
                    r is Ok && final(self).model() == t.remove(p)
                } else {
                    &&& final(self).model() == t
                    &&& r matches Err(e) && remove_dir_error(t, p, e)
                }
            }),
    ;
}

/// Owns exactly one backend instance for its whole lifetime; every path
/// handle derived from it delegates here.
#[derive(Debug)]
pub struct FileSystem<B: VFS> {
    pub(crate) vfs: B,
}

impl<B: VFS> FileSystem<B> {
    /// The modelled tree of the owned backend.
    pub closed spec fn model(&self) -> FsTree {
        self.vfs.model()
    }

    /// The owned backend's invariant.
    pub closed spec fn inv(&self) -> bool {
        self.vfs.inv()
    }

    /// The handle is a transparent shell over its backend.
    pub(crate) proof fn reveal_parts(&self)
        ensures
            self.inv() == self.vfs.inv(),
            self.model() == self.vfs.model(),
    {
    }

    /// A valid filesystem always models a well-formed tree.
    pub proof fn tree_wf_holds(&self)
        requires
            self.inv(),
        ensures
            tree_wf(self.model()),
    {
        self.vfs.inv_tree_wf()
    }
}

/// A handle: one path string, operated on against a filesystem handle.
#[derive(Debug)]
pub struct VPath {
    path: String,
}

impl View for VPath {
    type V = Seq<char>;

    closed spec fn view(&self) -> Seq<char> {
        self.path@
    }
}

/// The context phrases the path layer wraps around backend errors.
pub open spec fn ctx_read_dir(p: Seq<char>) -> Seq<char> {
    "Could not read directory '"@ + p + "'"@
}

pub open spec fn ctx_create_dir(p: Seq<char>) -> Seq<char> {
    "Could not create directory '"@ + p + "'"@
}

pub open spec fn ctx_open_file(p: Seq<char>) -> Seq<char> {
    "Could not open file '"@ + p + "'"@
}

pub open spec fn ctx_create_file(p: Seq<char>) -> Seq<char> {
    "Could not create file '"@ + p + "'"@
}

pub open spec fn ctx_append_file(p: Seq<char>) -> Seq<char> {
    "Could not open file '"@ + p + "' for appending"@
}

pub open spec fn ctx_remove_file(p: Seq<char>) -> Seq<char> {
    "Could not remove file '"@ + p + "'"@
}

pub open spec fn ctx_remove_dir(p: Seq<char>) -> Seq<char> {
    "Could not remove directory '"@ + p + "'"@
}

pub open spec fn ctx_metadata(p: Seq<char>) -> Seq<char> {
    "Could get metadata for '"@ + p + "'"@
}

/// `e` is one context frame with text `c` over a cause satisfying nothing
/// more than what the caller states separately.
pub open spec fn wraps(e: VfsError, c: Seq<char>, inner: spec_fn(VfsError) -> bool) -> bool {
    e matches VfsError::WithContext { context, cause } && context@ == c && inner(*cause)
}

/// The path strings of a sequence of handles.
pub open spec fn handle_views(kids: Seq<VPath>) -> Seq<Seq<char>> {
    Seq::new(kids.len(), |i: int| kids[i]@)
}

/// `prefix`, a path, and `suffix` glued into one context string.
fn ctx3(prefix: &str, path: &String, suffix: &str) -> (r: String)
    ensures
        r@ == prefix@ + path@ + suffix@,
{
    let mut s = String::from_str(prefix);
    s.append(path.as_str());
    s.append(suffix);
    s
}


/// `q` lies in the subtree of one of the children `ns` of `p`.
spec fn covered_by(q: Seq<Seq<char>>, p: Seq<Seq<char>>, ns: Seq<Seq<char>>) -> bool {
    exists|i: int| 0 <= i < ns.len() && is_path_prefix(#[trigger] p.push(ns[i]), q)
}

/// `t` with the subtrees of the children `ns` of `p` cut away.
spec fn remove_children(t: FsTree, p: Seq<Seq<char>>, ns: Seq<Seq<char>>) -> FsTree {
    t.remove_keys(Set::new(|q: Seq<Seq<char>>| covered_by(q, p, ns)))
}

proof fn lemma_prefix_refl(p: Seq<Seq<char>>)
    ensures
        is_path_prefix(p, p),
{
    assert(p.take(p.len() as int) =~= p);
}

proof fn lemma_prefix_of_push(p: Seq<Seq<char>>, n: Seq<char>)
    ensures
        is_path_prefix(p, p.push(n)),
{
    assert(p.push(n).take(p.len() as int) =~= p);
}

proof fn lemma_prefix_trans(a: Seq<Seq<char>>, b: Seq<Seq<char>>, c: Seq<Seq<char>>)
    requires
        is_path_prefix(a, b),
        is_path_prefix(b, c),
    ensures
        is_path_prefix(a, c),
{
    assert forall|i: int| 0 <= i < a.len() implies c.take(a.len() as int)[i] == a[i] by {
        assert(c[i] == c.take(b.len() as int)[i]);
        assert(b[i] == b.take(a.len() as int)[i]);
    }
    assert(c.take(a.len() as int) =~= a);
}

proof fn lemma_prefix_same_len(a: Seq<Seq<char>>, b: Seq<Seq<char>>)
    requires
        is_path_prefix(a, b),
        a.len() == b.len(),
    ensures
        a == b,
{
    assert(b.take(b.len() as int) =~= b);
}

/// Under a file, a well-formed tree holds nothing.
proof fn lemma_no_file_descendants(t: FsTree, pc: Seq<Seq<char>>, q: Seq<Seq<char>>)
    requires
        tree_wf(t),
        t.contains_key(pc),
        t[pc] is File,
        t.contains_key(q),
        is_path_prefix(pc, q),
    ensures
        q == pc,
{
    if q.len() > pc.len() {
        lemma_descendant_has_child(t, pc, q);
        assert(pc.push(q[pc.len() as int]).drop_last() =~= pc);
        assert(false);
    } else {
        lemma_prefix_same_len(pc, q);
    }
}

/// Removing the file child `ns[k]` extends the walk by one child.
proof fn lemma_step_file(t0: FsTree, p: Seq<Seq<char>>, ns: Seq<Seq<char>>, k: int, cur: FsTree)
    requires
        tree_wf(t0),
        0 <= k < ns.len(),
        cur == remove_children(t0, p, ns.take(k)),
        t0.contains_key(p.push(ns[k])),
        t0[p.push(ns[k])] is File,
    ensures
        cur.remove(p.push(ns[k])) == remove_children(t0, p, ns.take(k + 1)),
{
    let pc = p.push(ns[k]);
    let lhs = cur.remove(pc);
    let rhs = remove_children(t0, p, ns.take(k + 1));
    assert forall|q: Seq<Seq<char>>| #[trigger] lhs.contains_key(q) implies rhs.contains_key(
        q,
    ) by {
        if covered_by(q, p, ns.take(k + 1)) {
            let j = choose|j: int|
                0 <= j < k + 1 && is_path_prefix(#[trigger] p.push(ns.take(k + 1)[j]), q);
            if j < k {
                assert(ns.take(k)[j] == ns[j]);
                assert(is_path_prefix(p.push(ns.take(k)[j]), q));
                assert(covered_by(q, p, ns.take(k)));
            } else {
                lemma_no_file_descendants(t0, pc, q);
            }
            assert(false);
        }
    }
    assert forall|q: Seq<Seq<char>>| #[trigger] rhs.contains_key(q) implies lhs.contains_key(
        q,
    ) by {
        if covered_by(q, p, ns.take(k)) {
            let j = choose|j: int| 0 <= j < k && is_path_prefix(#[trigger] p.push(ns.take(k)[j]), q);
            assert(ns.take(k + 1)[j] == ns[j]);
            assert(is_path_prefix(p.push(ns.take(k + 1)[j]), q));
            assert(covered_by(q, p, ns.take(k + 1)));
            assert(false);
        }
        if q == pc {
            lemma_prefix_refl(pc);
            assert(ns.take(k + 1)[k] == ns[k]);
            assert(is_path_prefix(p.push(ns.take(k + 1)[k]), q));
            assert(covered_by(q, p, ns.take(k + 1)));
            assert(false);
        }
    }
    assert(lhs =~= rhs);
}

/// Pruning the directory child `ns[k]` extends the walk by one child.
proof fn lemma_step_dir(t0: FsTree, p: Seq<Seq<char>>, ns: Seq<Seq<char>>, k: int, cur: FsTree)
    requires
        0 <= k < ns.len(),
        cur == remove_children(t0, p, ns.take(k)),
    ensures
        prune(cur, p.push(ns[k])) == remove_children(t0, p, ns.take(k + 1)),
{
    let pc = p.push(ns[k]);
    let lhs = prune(cur, pc);
    let rhs = remove_children(t0, p, ns.take(k + 1));
    assert forall|q: Seq<Seq<char>>| #[trigger] lhs.contains_key(q) implies rhs.contains_key(
        q,
    ) by {
        if covered_by(q, p, ns.take(k + 1)) {
            let j = choose|j: int|
                0 <= j < k + 1 && is_path_prefix(#[trigger] p.push(ns.take(k + 1)[j]), q);
            if j < k {
                assert(ns.take(k)[j] == ns[j]);
                assert(is_path_prefix(p.push(ns.take(k)[j]), q));
                assert(covered_by(q, p, ns.take(k)));
            } else {
                assert(is_path_prefix(pc, q));
            }
            assert(false);
        }
    }
    assert forall|q: Seq<Seq<char>>| #[trigger] rhs.contains_key(q) implies lhs.contains_key(
        q,
    ) by {
        if covered_by(q, p, ns.take(k)) {
            let j = choose|j: int| 0 <= j < k && is_path_prefix(#[trigger] p.push(ns.take(k)[j]), q);
            assert(ns.take(k + 1)[j] == ns[j]);
            assert(is_path_prefix(p.push(ns.take(k + 1)[j]), q));
            assert(covered_by(q, p, ns.take(k + 1)));
            assert(false);
        }
        if is_path_prefix(pc, q) {
            assert(ns.take(k + 1)[k] == ns[k]);
            assert(is_path_prefix(p.push(ns.take(k + 1)[k]), q));
            assert(covered_by(q, p, ns.take(k + 1)));
            assert(false);
        }
    }
    assert(lhs =~= rhs);
}

/// A child's subtree in a shrunken tree is strictly smaller than its
/// parent's subtree in the starting tree.
proof fn lemma_subtree_shrinks(
    t0: FsTree,
    p: Seq<Seq<char>>,
    cur: FsTree,
    pc: Seq<Seq<char>>,
)
    requires
        t0.dom().finite(),
        forall|q: Seq<Seq<char>>| #[trigger] cur.contains_key(q) ==> t0.contains_key(q),
        t0.contains_key(p),
        is_path_prefix(p, pc),
        pc.len() > p.len(),
    ensures
        subtree_keys(cur, pc).len() < subtree_keys(t0, p).len(),
{
    let a = subtree_keys(cur, pc);
    let b = subtree_keys(t0, p);
    assert(b.subset_of(t0.dom()));
    lemma_len_subset(b, t0.dom());
    lemma_prefix_refl(p);
    assert(b.contains(p));
    assert forall|q: Seq<Seq<char>>| #[trigger] a.contains(q) implies b.remove(p).contains(
        q,
    ) by {
        assert(cur.contains_key(q));
        lemma_prefix_trans(p, pc, q);
        assert(q.len() >= pc.len());
    }
    lemma_len_subset(a, b.remove(p));
    assert(b.remove(p).len() == b.len() - 1);
}


/// After all children are gone, the directory itself still stands, empty.
proof fn lemma_end_state(t0: FsTree, p: Seq<Seq<char>>, ns: Seq<Seq<char>>, m_end: FsTree)
    requires
        dir_children_listed(t0, p, ns),
        m_end == remove_children(t0, p, ns),
        t0.contains_key(p),
    ensures
        m_end.contains_key(p),
        m_end[p] == t0[p],
        has_no_children(m_end, p),
{
    if covered_by(p, p, ns) {
        let j = choose|j: int| 0 <= j < ns.len() && is_path_prefix(#[trigger] p.push(ns[j]), p);
        assert(false);
    }
    assert forall|n: Seq<char>| !m_end.contains_key(#[trigger] p.push(n)) by {
        if m_end.contains_key(p.push(n)) {
            assert(t0.contains_key(p.push(n)));
            assert(ns.contains(n));
            let j = choose|j: int| 0 <= j < ns.len() && ns[j] == n;
            lemma_prefix_refl(p.push(ns[j]));
            assert(covered_by(p.push(n), p, ns));
            assert(false);
        }
    }
}

/// A strict descendant of `p` lies in the subtree of one of its children.
proof fn lemma_descendant_covered(t0: FsTree, p: Seq<Seq<char>>, ns: Seq<Seq<char>>, q: Seq<
    Seq<char>,
>)
    requires
        tree_wf(t0),
        t0.contains_key(p),
        dir_children_listed(t0, p, ns),
        t0.contains_key(q),
        is_path_prefix(p, q),
        q != p,
    ensures
        covered_by(q, p, ns),
{
    if q.len() == p.len() {
        lemma_prefix_same_len(p, q);
        assert(false);
    }
    lemma_descendant_has_child(t0, p, q);
    let c = q[p.len() as int];
    assert(ns.contains(c));
    assert(q.take((p.len() + 1) as int) =~= p.push(c));
    assert(is_path_prefix(p.push(c), q));
    let j = choose|j: int| 0 <= j < ns.len() && ns[j] == c;
    assert(is_path_prefix(p.push(ns[j]), q));
}

/// Removing the emptied directory completes the prune of its subtree.
proof fn lemma_final_nonroot(t0: FsTree, p: Seq<Seq<char>>, ns: Seq<Seq<char>>, m_end: FsTree)
    requires
        tree_wf(t0),
        t0.contains_key(p),
        dir_children_listed(t0, p, ns),
        m_end == remove_children(t0, p, ns),
    ensures
        m_end.remove(p) == prune(t0, p),
{
    let lhs = m_end.remove(p);
    let rhs = prune(t0, p);
    assert forall|q: Seq<Seq<char>>| #[trigger] lhs.contains_key(q) implies rhs.contains_key(
        q,
    ) by {
        if is_path_prefix(p, q) {
            lemma_descendant_covered(t0, p, ns, q);
            assert(false);
        }
    }
    assert forall|q: Seq<Seq<char>>| #[trigger] rhs.contains_key(q) implies lhs.contains_key(
        q,
    ) by {
        if covered_by(q, p, ns) {
            let j = choose|j: int|
                0 <= j < ns.len() && is_path_prefix(#[trigger] p.push(ns[j]), q);
            lemma_prefix_of_push(p, ns[j]);
            lemma_prefix_trans(p, p.push(ns[j]), q);
            assert(false);
        }
        if q == p {
            lemma_prefix_refl(p);
            assert(false);
        }
    }
    assert(lhs =~= rhs);
}

/// Emptying the root leaves exactly the root directory standing.
proof fn lemma_final_root(t0: FsTree, p: Seq<Seq<char>>, ns: Seq<Seq<char>>, m_end: FsTree)
    requires
        tree_wf(t0),
        t0.contains_key(p),
        t0[p] is Dir,
        dir_children_listed(t0, p, ns),
        m_end == remove_children(t0, p, ns),
        p.len() == 0,
    ensures
        m_end == prune(t0, p).insert(p, FsNode::Dir),
{
    let rhs = prune(t0, p).insert(p, FsNode::Dir);
    lemma_end_state(t0, p, ns, m_end);
    assert forall|q: Seq<Seq<char>>| #[trigger] m_end.contains_key(q) implies rhs.contains_key(
        q,
    ) by {
        if q != p {
            assert(q.take(p.len() as int) =~= p);
            assert(is_path_prefix(p, q));
            lemma_descendant_covered(t0, p, ns, q);
            assert(false);
        }
    }
    assert forall|q: Seq<Seq<char>>| #[trigger] rhs.contains_key(q) implies m_end.contains_key(
        q,
    ) by {
        if q != p {
            assert(q.take(p.len() as int) =~= p);
            assert(is_path_prefix(p, q));
        }
    }
    assert(m_end =~= rhs);
}

impl VPath {
    /// A root handle over a fresh backend, paired with the filesystem
    /// handle that owns the backend from now on.
    pub fn create<T: VFS>(vfs: T) -> (r: Result<(VPath, FileSystem<T>), VfsError>)
        ensures
            r matches Ok(pair) && pair.0@ == Seq::<char>::empty() && pair.1.model() == vfs.model()
                && pair.1.inv() == vfs.inv(),
    {
        Ok((VPath { path: String::new() }, FileSystem { vfs }))
    }

    /// The path string this handle names.
    pub fn path(&self) -> (r: &str)
        ensures
            r@ == self@,
    {
        self.path.as_str()
    }

    /// A handle one joint deeper: the path strings glued with `/`.
    pub fn join(&self, path: &str) -> (r: VPath)
        ensures
            r@ == self@ + seq!['/'] + path@,
    {
        let mut s = String::from_str(self.path.as_str());
        s.append("/");
        s.append(path);
        proof {
            reveal_strlit("/");
            assert("/"@ =~= seq!['/']);
        }
        VPath { path: s }
    }

    /// Whether anything lives at this path.  Never fails.
    pub fn path_exists<B: VFS>(&self, fs: &FileSystem<B>) -> (r: bool)
        requires
            fs.inv(),
        ensures
            r == fs.model().contains_key(segments_of(self@)),
    {
        let segs = split_path(&self.path);
        fs.vfs.path_exists(&segs)
    }

    /// The kind and length of the node at this path.
    pub fn metadata<B: VFS>(&self, fs: &FileSystem<B>) -> (r: Result<VMetadata, VfsError>)
        requires
            fs.inv(),
        ensures
            ({
                let t = fs.model();
                let p = segments_of(self@);
                match r {
                    Ok(m) => t.contains_key(p) && metadata_matches(t[p], m),
                    Err(e) => !t.contains_key(p) && wraps(
                        e,
                        ctx_metadata(self@),
                        |c: VfsError| err_not_found(c, p),
                    ),
                }
            }),
    {
        let segs = split_path(&self.path);
        fs.vfs.metadata(&segs).with_context(ctx3("Could get metadata for '", &self.path, "'"))
    }

    /// Create exactly one new directory at this path.
    pub fn create_dir<B: VFS>(&self, fs: &mut FileSystem<B>) -> (r: Result<(), VfsError>)
        requires
            old(fs).inv(),
        ensures
            final(fs).inv(),
            ({
                let t = old(fs).model();
                let p = segments_of(self@);
                if can_create_dir(t, p) {
                    r is Ok && final(fs).model() == t.insert(p, FsNode::Dir)
                } else {
                    &&& final(fs).model() == t
                    &&& r matches Err(e) && wraps(
                        e,
                        ctx_create_dir(self@),
                        |c: VfsError| create_dir_error(t, p, c),
                    )
                }
            }),
    {
        let segs = split_path(&self.path);
        let res = fs.vfs.create_dir(&segs);
        res.with_context(ctx3("Could not create directory '", &self.path, "'"))
    }

    /// A snapshot reader over the file at this path.
    pub fn open_file<B: VFS>(&self, fs: &FileSystem<B>) -> (r: Result<FileReader, VfsError>)
        requires
            fs.inv(),
        ensures
            ({
                let t = fs.model();
                let p = segments_of(self@);
                if can_open_file(t, p) {
                    r matches Ok(rd) && rd.bytes() == file_bytes(t, p) && rd.cursor() == 0
                        && rd.wf()
                } else {
                    r matches Err(e) && wraps(
                        e,
                        ctx_open_file(self@),
                        |c: VfsError| err_not_found(c, p),
                    )
                }
            }),
    {
        let segs = split_path(&self.path);
        let res = fs.vfs.open_file(&segs);
        res.with_context(ctx3("Could not open file '", &self.path, "'"))
    }

    /// An exclusive writer over a newly-truncated file at this path.
    pub fn create_file<B: VFS>(&self, fs: &mut FileSystem<B>) -> (r: Result<FileWriter, VfsError>)
        requires
            old(fs).inv(),
        ensures
            final(fs).inv(),
            ({
                let t = old(fs).model();
                let p = segments_of(self@);
                if can_create_file(t, p) {
                    &&& r matches Ok(w) && w.target() == p && w.cursor() == 0
                    &&& final(fs).model() == t.insert(p, FsNode::File(Seq::empty()))
                } else {
                    &&& final(fs).model() == t
                    &&& r matches Err(e) && wraps(
                        e,
                        ctx_create_file(self@),
                        |c: VfsError| create_file_error(t, p, c),
                    )
                }
            }),
    {
        let segs = split_path(&self.path);
        let res = fs.vfs.create_file(&segs);
        res.with_context(ctx3("Could not create file '", &self.path, "'"))
    }

    /// An exclusive writer at end-of-content, the file created if absent.
    pub fn append_file<B: VFS>(&self, fs: &mut FileSystem<B>) -> (r: Result<FileWriter, VfsError>)
        requires
            old(fs).inv(),
        ensures
            final(fs).inv(),
            ({
                let t = old(fs).model();
                let p = segments_of(self@);
                if can_create_file(t, p) {
                    r matches Ok(w) && w.target() == p && (if t.contains_key(p) {
                        final(fs).model() == t && w.cursor() == file_bytes(t, p).len()
                    } else {
                        final(fs).model() == t.insert(p, FsNode::File(Seq::empty()))
                            && w.cursor() == 0
                    })
                } else {
                    &&& final(fs).model() == t
                    &&& r matches Err(e) && wraps(
                        e,
                        ctx_append_file(self@),
                        |c: VfsError| create_file_error(t, p, c),
                    )
                }
            }),
    {
        let segs = split_path(&self.path);
        let res = fs.vfs.append_file(&segs);
        res.with_context(ctx3("Could not open file '", &self.path, "' for appending"))
    }

    /// Remove the file at this path.
    pub fn remove_file<B: VFS>(&self, fs: &mut FileSystem<B>) -> (r: Result<(), VfsError>)
        requires
            old(fs).inv(),
        ensures
            final(fs).inv(),
            ({
                let t = old(fs).model();
                let p = segments_of(self@);
                if can_remove_file(t, p) {
                    r is Ok && final(fs).model() == t.remove(p)
                } else {
                    &&& final(fs).model() == t
                    &&& r matches Err(e) && wraps(
                        e,
                        ctx_remove_file(self@),
                        |c: VfsError| remove_file_error(t, p, c),
                    )
                }
            }),
    {
        let segs = split_path(&self.path);
        let res = fs.vfs.remove_file(&segs);
        res.with_context(ctx3("Could not remove file '", &self.path, "'"))
    }

    /// Handles on the children of this directory, one per child name, in
    /// unspecified order.
    pub fn read_dir<B: VFS>(&self, fs: &FileSystem<B>) -> (r: Result<Vec<VPath>, VfsError>)
        requires
            fs.inv(),
        ensures
            ({
                let t = fs.model();
                let p = segments_of(self@);
                match r {
                    Ok(kids) => {
                        &&& t.contains_key(p) && t[p] is Dir
                        &&& dir_children_listed(
                            t,
                            p,
                            handle_views(kids@).map_values(
                                |v: Seq<char>| v.skip(self@.len() + 1 as int),
                            ),
                        )
                        &&& forall|i: int|
                            0 <= i < kids@.len() ==> (#[trigger] kids@[i]@).len() >= self@.len()
                                + 1
                        &&& forall|i: int|
                            0 <= i < kids@.len() ==> (#[trigger] kids@[i]@).take(self@.len() + 1 as int)
                                == self@.push('/')
                    },
                    Err(e) => !(t.contains_key(p) && t[p] is Dir) && wraps(
                        e,
                        ctx_read_dir(self@),
                        |c: VfsError| err_not_found(c, p),
                    ),
                }
            }),
    {
        let segs = split_path(&self.path);
        let res = fs.vfs.read_dir(&segs);
        match res {
            Err(e) => Err(
                VfsError::WithContext {
                    context: ctx3("Could not read directory '", &self.path, "'"),
                    cause: Box::new(e),
                },
            ),
            Ok(names) => {
                let ghost t = fs.model();
                let ghost p = segments_of(self@);
                let mut kids: Vec<VPath> = Vec::new();
                let mut i: usize = 0;
                while i < names.len()
                    invariant
                        i <= names@.len(),
                        kids@.len() == i,
                        forall|k: int|
                            0 <= k < i ==> (#[trigger] kids@[k]@) == self@ + seq!['/'] + names@[k]@,
                    decreases names@.len() - i,
                {
                    let kid = self.join(names[i].as_str());
                    kids.push(kid);
                    i = i + 1;
                }
                proof {
                    let views = handle_views(kids@).map_values(|v: Seq<char>| v.skip(self@.len() + 1 as int));
                    assert forall|k: int| 0 <= k < kids@.len() implies views[k]
                        == names.deep_view()[k] by {
                        assert(handle_views(kids@)[k] == kids@[k]@);
                        assert((self@ + seq!['/'] + names@[k]@).skip(self@.len() + 1 as int) =~= names@[k]@);
                        assert(names.deep_view()[k] == names@[k]@);
                    }
                    assert(views =~= names.deep_view());
                    assert forall|k: int| 0 <= k < kids@.len() implies (#[trigger] kids@[k]@).take(
                        self@.len() + 1 as int,
                    ) == self@.push('/') by {
                        assert((self@ + seq!['/'] + names@[k]@).take(self@.len() + 1 as int) =~= self@.push(
                            '/',
                        ));
                    }
                }
                Ok(kids)
            },
        }
    }

    /// Create this directory and every missing ancestor, walking the path
    /// left to right and creating each prefix that does not exist yet.
    /// An existing prefix is kept whatever it is; a file sitting where a
    /// directory is needed fails the walk at that point.
    pub fn create_dir_all<B: VFS>(&self, fs: &mut FileSystem<B>) -> (r: Result<(), VfsError>)
        requires
            old(fs).inv(),
        ensures
            final(fs).inv(),
            ({
                let t = old(fs).model();
                let p = segments_of(self@);
                let walk = create_all_from(t, p, 1);
                final(fs).model() == walk.0 && (match walk.1 {
                    None => r is Ok,
                    Some(j) => r matches Err(e) && err_not_found(e, p.take(j - 1)),
                })
            }),
    {
        let segs = split_path(&self.path);
        let ghost p = segs.deep_view();
        let ghost t0 = fs.model();
        let mut prefix: Vec<String> = Vec::new();
        let mut i: usize = 0;
        while i < segs.len()
            invariant
                fs.inv(),
                i <= segs@.len(),
                p == segs.deep_view(),
                p == segments_of(self@),
                t0 == old(fs).model(),
                prefix@.len() == i,
                forall|k: int| 0 <= k < i ==> (#[trigger] prefix@[k]@) == segs@[k]@,
                create_all_from(t0, p, 1) == create_all_from(fs.model(), p, i + 1),
            decreases segs@.len() - i,
        {
            prefix.push(String::from_str(segs[i].as_str()));
            proof {
                assert forall|k: int| 0 <= k < prefix@.len() implies prefix.deep_view()[k]
                    == p.take(i + 1)[k] by {
                    assert(prefix.deep_view()[k] == prefix@[k]@);
                    assert(p[k] == segs@[k]@);
                }
                assert(prefix.deep_view() =~= p.take(i + 1));
                assert(p.take(i + 1).drop_last() =~= p.take(i as int));
            }
            let ghost q = prefix.deep_view();
            let ghost cur = fs.model();
            if !fs.vfs.path_exists(&prefix) {
                let res = fs.vfs.create_dir(&prefix);
                match res {
                    Ok(_) => {
                        proof {
                            assert(create_all_from(cur, p, i + 1) == create_all_from(
                                cur.insert(q, FsNode::Dir),
                                p,
                                i + 2,
                            ));
                        }
                    },
                    Err(e) => {
                        proof {
                            assert(create_all_from(cur, p, i + 1) == (cur, Some(i + 1 as int)));
                        }
                        return Err(e);
                    },
                }
            } else {
                proof {
                    assert(create_all_from(cur, p, i + 1) == create_all_from(cur, p, i + 2));
                }
            }
            i = i + 1;
        }
        proof {
            assert(create_all_from(fs.model(), p, i + 1) == (fs.model(), None::<int>));
        }
        Ok(())
    }

    /// Depth-first removal of the subtree rooted at `segs`: list the
    /// children, remove each file and recurse into each directory, then
    /// remove the now-empty directory itself.  The root directory itself
    /// can be emptied but never removed.
    fn rda_on<B: VFS>(fs: &mut FileSystem<B>, segs: &Vec<String>, shown: &String) -> (r: Result<
        (),
        VfsError,
    >)
        requires
            old(fs).inv(),
            old(fs).model().contains_key(segs.deep_view()),
        ensures
            final(fs).inv(),
            ({
                let t = old(fs).model();
                let p = segs.deep_view();
                if t[p] is File {
                    &&& final(fs).model() == t
                    &&& r matches Err(e) && wraps(
                        e,
                        ctx_read_dir(shown@),
                        |c: VfsError| err_not_found(c, p),
                    )
                } else if p.len() > 0 {
                    r is Ok && final(fs).model() == prune(t, p)
                } else {
                    &&& final(fs).model() == prune(t, p).insert(p, FsNode::Dir)
                    &&& r matches Err(e) && wraps(
                        e,
                        ctx_remove_dir(shown@),
                        |c: VfsError| err_other(c, msg_root()),
                    )
                }
            }),
        decreases subtree_keys(old(fs).model(), segs.deep_view()).len(),
    {
        let ghost t0 = fs.model();
        let ghost p = segs.deep_view();
        proof {
            fs.tree_wf_holds();
        }
        let names = match fs.vfs.read_dir(segs) {
            Err(e) => {
                return Err(
                    VfsError::WithContext {
                        context: ctx3("Could not read directory '", shown, "'"),
                        cause: Box::new(e),
                    },
                );
            },
            Ok(names) => names,
        };
        let ghost ns = names.deep_view();
        proof {
            assert(remove_children(t0, p, ns.take(0)) =~= t0);
        }
        let mut k: usize = 0;
        while k < names.len()
            invariant
                fs.inv(),
                k <= ns.len(),
                t0 == old(fs).model(),
                p == segs.deep_view(),
                ns == names.deep_view(),
                tree_wf(t0),
                t0.contains_key(p),
                t0[p] is Dir,
                dir_children_listed(t0, p, ns),
                fs.model() == remove_children(t0, p, ns.take(k as int)),
            decreases ns.len() - k,
        {
            let ghost cur = fs.model();
            let child = push_seg(segs, names[k].as_str());
            let ghost pc = p.push(ns[k as int]);
            proof {
                assert(ns[k as int] == names@[k as int]@);
                assert(child.deep_view() == pc);
                assert(t0.contains_key(pc));
                if covered_by(pc, p, ns.take(k as int)) {
                    let j = choose|j: int|
                        0 <= j < k && is_path_prefix(#[trigger] p.push(ns.take(k as int)[j]), pc);
                    assert(ns.take(k as int)[j] == ns[j]);
                    lemma_prefix_same_len(p.push(ns[j]), pc);
                    assert(p.push(ns[j])[p.len() as int] == ns[j]);
                    assert(pc[p.len() as int] == ns[k as int]);
                    assert(false);
                }
                assert(cur.contains_key(pc));
                assert(cur[pc] == t0[pc]);
            }
            let mut child_shown = String::from_str(shown.as_str());
            child_shown.append("/");
            child_shown.append(names[k].as_str());
            let md = match fs.vfs.metadata(&child) {
                Ok(m) => m,
                Err(e) => {
                    proof {
                        assert(false);
                    }
                    return Err(e);
                },
            };
            if md.file_type == VFileType::File {
                proof {
                    assert(t0[pc] is File);
                }
                match fs.vfs.remove_file(&child) {
                    Ok(_) => {},
                    Err(e) => {
                        proof {
                            assert(false);
                        }
                        return Err(e);
                    },
                }
                proof {
                    lemma_step_file(t0, p, ns, k as int, cur);
                    assert(ns.take(k + 1)[k as int] == ns[k as int]);
                    assert(fs.model() == remove_children(t0, p, ns.take(k + 1)));
                }
            } else {
                proof {
                    assert(t0[pc] is Dir);
                    assert(pc.len() > 0);
                    assert forall|q: Seq<Seq<char>>| #[trigger] cur.contains_key(q) implies t0.contains_key(
                        q,
                    ) by {}
                    lemma_prefix_of_push(p, ns[k as int]);
                    lemma_subtree_shrinks(t0, p, cur, pc);
                }
                match Self::rda_on(fs, &child, &child_shown) {
                    Ok(_) => {},
                    Err(e) => {
                        proof {
                            assert(false);
                        }
                        return Err(e);
                    },
                }
                proof {
                    lemma_step_dir(t0, p, ns, k as int, cur);
                    assert(ns.take(k + 1)[k as int] == ns[k as int]);
                    assert(fs.model() == remove_children(t0, p, ns.take(k + 1)));
                }
            }
            k = k + 1;
        }
        let ghost m_end = fs.model();
        proof {
            assert(ns.take(ns.len() as int) =~= ns);
            assert(m_end == remove_children(t0, p, ns));
            lemma_end_state(t0, p, ns, m_end);
        }
        let res = fs.vfs.remove_dir(segs);
        match res {
            Ok(_) => {
                proof {
                    lemma_final_nonroot(t0, p, ns, m_end);
                }
                Ok(())
            },
            Err(e) => {
                proof {
                    assert(p.len() == 0);
                    lemma_final_root(t0, p, ns, m_end);
                }
                Err(
                    VfsError::WithContext {
                        context: ctx3("Could not remove directory '", shown, "'"),
                        cause: Box::new(e),
                    },
                )
            },
        }
    }

    /// Remove this path and everything under it, depth first.  A missing
    /// path is a successful no-op; the root can be emptied but never
    /// removed.
    pub fn remove_dir_all<B: VFS>(&self, fs: &mut FileSystem<B>) -> (r: Result<(), VfsError>)
        requires
            old(fs).inv(),
        ensures
            final(fs).inv(),
            ({
                let t = old(fs).model();
                let p = segments_of(self@);
                if !t.contains_key(p) {
                    r is Ok && final(fs).model() == t
                } else if t[p] is File {
                    &&& final(fs).model() == t
                    &&& r matches Err(e) && wraps(
                        e,
                        ctx_read_dir(self@),
                        |c: VfsError| err_not_found(c, p),
                    )
                } else if p.len() > 0 {
                    r is Ok && final(fs).model() == prune(t, p)
                } else {
                    &&& final(fs).model() == prune(t, p).insert(p, FsNode::Dir)
                    &&& r matches Err(e) && wraps(
                        e,
                        ctx_remove_dir(self@),
                        |c: VfsError| err_other(c, msg_root()),
                    )
                }
            }),
    {
        let segs = split_path(&self.path);
        if !fs.vfs.path_exists(&segs) {
            return Ok(());
        }
        Self::rda_on(fs, &segs, &self.path)
    }

    /// Remove the empty, non-root directory at this path.
    pub fn remove_dir<B: VFS>(&self, fs: &mut FileSystem<B>) -> (r: Result<(), VfsError>)
        requires
            old(fs).inv(),
        ensures
            final(fs).inv(),
            ({
                let t = old(fs).model();
                let p = segments_of(self@);
                if can_remove_dir(t, p) {
                    r is Ok && final(fs).model() == t.remove(p)
                } else {
                    &&& final(fs).model() == t
                    &&& r matches Err(e) && wraps(
                        e,
                        ctx_remove_dir(self@),
                        |c: VfsError| remove_dir_error(t, p, c),
                    )
                }
            }),
    {
        let segs = split_path(&self.path);
        let res = fs.vfs.remove_dir(&segs);
        res.with_context(ctx3("Could not remove directory '", &self.path, "'"))
    }
}

} // verus!
