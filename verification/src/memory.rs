//! The in-memory backend: an ephemeral tree of named nodes held as a flat
//! table keyed by full segment paths, implementing the whole capability
//! contract.  The table always holds the root directory, holds each path at
//! most once, and keeps every node under a parent directory.

use vstd::prelude::*;

use crate::errors::VfsError;
use crate::io::FileReader;
use crate::io::FileWriter;
use crate::model::dir_children_listed;
use crate::model::has_no_children;
use crate::model::splice_bytes;
use crate::model::tree_wf;
use crate::model::FsNode;
use crate::model::FsTree;
use crate::paths::clone_segs;
use crate::paths::parent_segs;
use crate::paths::render_path;
use crate::paths::segs_eq;
use crate::vpath::VFileType;
use crate::vpath::VMetadata;
use crate::vpath::VFS;

verus! {

/// One stored node: a directory marker or a file's byte buffer.
#[derive(Debug)]
enum MemNode {
    Dir,
    File(Vec<u8>),
}

/// One row of the table: a full path and the node living there.
#[derive(Debug)]
struct MemEntry {
    path: Vec<String>,
    node: MemNode,
}

impl MemEntry {
    spec fn key(&self) -> Seq<Seq<char>> {
        self.path.deep_view()
    }

    spec fn node_model(&self) -> FsNode {
        match self.node {
            MemNode::Dir => FsNode::Dir,
            MemNode::File(v) => FsNode::File(v@),
        }
    }
}

/// An ephemeral in-memory filesystem.
#[derive(Debug)]
pub struct MemoryFS {
    entries: Vec<MemEntry>,
}

/// The tree a table denotes: later rows win, though a valid table never
/// repeats a key.
spec fn table_model(s: Seq<MemEntry>) -> FsTree
    decreases s.len(),
{
    if s.len() == 0 {
        Map::empty()
    } else {
        table_model(s.drop_last()).insert(s.last().key(), s.last().node_model())
    }
}

/// No two rows name the same path.
spec fn keys_unique(s: Seq<MemEntry>) -> bool {
    forall|i: int, j: int| 0 <= i < j < s.len() ==> s[i].key() != s[j].key()
}

/// A key is in the tree exactly when some row holds it.
proof fn lemma_table_model_contains(s: Seq<MemEntry>, k: Seq<Seq<char>>)
    ensures
        table_model(s).contains_key(k) <==> (exists|i: int| 0 <= i < s.len() && s[i].key() == k),
    decreases s.len(),
{
    if s.len() > 0 {
        lemma_table_model_contains(s.drop_last(), k);
        if s.last().key() == k {
            assert(s[s.len() - 1].key() == k);
        } else {
            if table_model(s).contains_key(k) {
                let i = choose|i: int| 0 <= i < s.drop_last().len() && s.drop_last()[i].key() == k;
                assert(s[i].key() == k);
            }
            if exists|i: int| 0 <= i < s.len() && s[i].key() == k {
                let i = choose|i: int| 0 <= i < s.len() && s[i].key() == k;
                assert(i < s.len() - 1);
                assert(s.drop_last()[i].key() == k);
            }
        }
    }
}

/// In a table without repeated keys, the tree maps each row's path to that
/// row's node.
proof fn lemma_table_model_at(s: Seq<MemEntry>, i: int)
    requires
        keys_unique(s),
        0 <= i < s.len(),
    ensures
        table_model(s).contains_key(s[i].key()),
        table_model(s)[s[i].key()] == s[i].node_model(),
    decreases s.len(),
{
    if i < s.len() - 1 {
        assert(keys_unique(s.drop_last()));
        lemma_table_model_at(s.drop_last(), i);
        assert(s.drop_last()[i] == s[i]);
        assert(s[i].key() != s.last().key());
    }
}

/// Replacing a row's node (keeping its path) updates just that key.
proof fn lemma_table_model_update(s: Seq<MemEntry>, i: int, e: MemEntry)
    requires
        keys_unique(s),
        0 <= i < s.len(),
        e.key() == s[i].key(),
    ensures
        table_model(s.update(i, e)) == table_model(s).insert(e.key(), e.node_model()),
    decreases s.len(),
{
    let s2 = s.update(i, e);
    if i == s.len() - 1 {
        assert(s2.drop_last() =~= s.drop_last());
        assert(s2.last() == e);
        assert(table_model(s.drop_last()).insert(s.last().key(), s.last().node_model()).insert(
            e.key(),
            e.node_model(),
        ) =~= table_model(s.drop_last()).insert(e.key(), e.node_model()));
    } else {
        assert(keys_unique(s.drop_last()));
        assert(s2.drop_last() =~= s.drop_last().update(i, e));
        assert(s2.last() == s.last());
        lemma_table_model_update(s.drop_last(), i, e);
        assert(e.key() != s.last().key());
        assert(table_model(s.drop_last()).insert(e.key(), e.node_model()).insert(
            s.last().key(),
            s.last().node_model(),
        ) =~= table_model(s.drop_last()).insert(s.last().key(), s.last().node_model()).insert(
            e.key(),
            e.node_model(),
        ));
    }
}

/// Dropping a row removes just that key from the tree.
proof fn lemma_table_model_remove(s: Seq<MemEntry>, i: int)
    requires
        keys_unique(s),
        0 <= i < s.len(),
    ensures
        table_model(s.remove(i)) == table_model(s).remove(s[i].key()),
    decreases s.len(),
{
    let s2 = s.remove(i);
    if i == s.len() - 1 {
        assert(s2 =~= s.drop_last());
        lemma_table_model_contains(s.drop_last(), s[i].key());
        assert(!table_model(s.drop_last()).contains_key(s[i].key()));
        assert(table_model(s.drop_last()).insert(s.last().key(), s.last().node_model()).remove(
            s[i].key(),
        ) =~= table_model(s.drop_last()));
    } else {
        assert(keys_unique(s.drop_last()));
        assert(s2.drop_last() =~= s.drop_last().remove(i));
        assert(s2.last() == s.last());
        lemma_table_model_remove(s.drop_last(), i);
        assert(s[i].key() != s.last().key());
        assert(table_model(s.drop_last()).remove(s[i].key()).insert(
            s.last().key(),
            s.last().node_model(),
        ) =~= table_model(s.drop_last()).insert(s.last().key(), s.last().node_model()).remove(
            s[i].key(),
        ));
    }
}

/// Inserting a node under a directory parent keeps the tree well-formed,
/// whether the path is fresh or overwrites a file with a file.
proof fn lemma_wf_insert(t: FsTree, p: Seq<Seq<char>>, n: FsNode)
    requires
        tree_wf(t),
        p.len() > 0,
        t.contains_key(p.drop_last()),
        t[p.drop_last()] is Dir,
        !t.contains_key(p) || (t[p] is File && n is File),
    ensures
        tree_wf(t.insert(p, n)),
{
    let t2 = t.insert(p, n);
    assert(t2.contains_key(Seq::empty()));
    assert(t2[Seq::empty()] is Dir);
    assert(t2.dom() =~= t.dom().insert(p));
    assert forall|k: Seq<Seq<char>>| #[trigger] t2.contains_key(k) && k.len() > 0 implies t2.contains_key(
        k.drop_last(),
    ) && t2[k.drop_last()] is Dir by {
        if k == p {
            assert(t2[p.drop_last()] == t[p.drop_last()]);
        } else {
            assert(t.contains_key(k));
            if k.drop_last() == p {
                assert(t.contains_key(p));
                assert(t[p] is Dir);
                assert(false);
            }
        }
    }
}

/// Removing a file, or a childless directory, keeps the tree well-formed.
proof fn lemma_wf_remove(t: FsTree, p: Seq<Seq<char>>)
    requires
        tree_wf(t),
        t.contains_key(p),
        p.len() > 0,
        t[p] is File || has_no_children(t, p),
    ensures
        tree_wf(t.remove(p)),
{
    let t2 = t.remove(p);
    assert(t2.dom() =~= t.dom().remove(p));
    assert(t2.contains_key(Seq::empty()));
    assert(t2[Seq::empty()] is Dir);
    assert forall|k: Seq<Seq<char>>| #[trigger] t2.contains_key(k) && k.len() > 0 implies t2.contains_key(
        k.drop_last(),
    ) && t2[k.drop_last()] is Dir by {
        assert(t.contains_key(k));
        if k.drop_last() == p {
            assert(t[p] is Dir);
            assert(k =~= p.push(k.last()));
            assert(t.contains_key(p.push(k.last())));
            assert(false);
        }
    }
}

/// A key one level below `p`.
spec fn is_child_key_of(k: Seq<Seq<char>>, p: Seq<Seq<char>>) -> bool {
    k.len() == p.len() + 1 && k.take(p.len() as int) == p
}

proof fn lemma_child_key(k: Seq<Seq<char>>, p: Seq<Seq<char>>)
    requires
        is_child_key_of(k, p),
    ensures
        k == p.push(k.last()),
{
    assert(k =~= p.push(k.last()));
}

impl MemoryFS {
    /// A fresh backend: a tree holding only the root directory.
    pub fn new() -> (r: MemoryFS)
        ensures
            r.inv(),
            r.model() == Map::<Seq<Seq<char>>, FsNode>::empty().insert(Seq::empty(), FsNode::Dir),
    {
        let mut entries: Vec<MemEntry> = Vec::new();
        entries.push(MemEntry { path: Vec::new(), node: MemNode::Dir });
        let r = MemoryFS { entries };
        proof {
            let s = r.entries@;
            assert(s.drop_last() =~= Seq::<MemEntry>::empty());
            assert(table_model(Seq::<MemEntry>::empty()) == Map::<Seq<Seq<char>>, FsNode>::empty());
            assert(s.last().key() =~= Seq::<Seq<char>>::empty());
            assert(r.model() =~= Map::<Seq<Seq<char>>, FsNode>::empty().insert(
                Seq::empty(),
                FsNode::Dir,
            ));
            assert(r.model().dom() =~= Set::<Seq<Seq<char>>>::empty().insert(Seq::empty()));
            assert forall|k: Seq<Seq<char>>| #[trigger] r.model().contains_key(k) && k.len() > 0 implies r.model().contains_key(
                k.drop_last(),
            ) && r.model()[k.drop_last()] is Dir by {
                assert(k == Seq::<Seq<char>>::empty());
            }
        }
        r
    }

    /// The row holding `path`, if any.
    fn find(&self, path: &Vec<String>) -> (r: Option<usize>)
        requires
            self.inv(),
        ensures
            match r {
                Some(i) => i < self.entries@.len() && self.entries@[i as int].key()
                    == path.deep_view() && self.model().contains_key(path.deep_view())
                    && self.model()[path.deep_view()] == self.entries@[i as int].node_model(),
                None => !self.model().contains_key(path.deep_view()),
            },
    {
        let mut i: usize = 0;
        while i < self.entries.len()
            invariant
                self.inv(),
                i <= self.entries@.len(),
                forall|j: int| 0 <= j < i ==> self.entries@[j].key() != path.deep_view(),
            decreases self.entries@.len() - i,
        {
            if segs_eq(&self.entries[i].path, path) {
                proof {
                    lemma_table_model_at(self.entries@, i as int);
                }
                return Some(i);
            }
            i = i + 1;
        }
        proof {
            lemma_table_model_contains(self.entries@, path.deep_view());
        }
        None
    }

    /// The names of the rows exactly one level below `path`.
    fn child_names(&self, path: &Vec<String>) -> (r: Vec<String>)
        requires
            self.inv(),
        ensures
            dir_children_listed(self.model(), path.deep_view(), r.deep_view()),
    {
        let ghost p = path.deep_view();
        let mut out: Vec<String> = Vec::new();
        let mut i: usize = 0;
        while i < self.entries.len()
            invariant
                self.inv(),
                i <= self.entries@.len(),
                p == path.deep_view(),
                forall|k: int|
                    0 <= k < out@.len() ==> exists|j: int|
                        0 <= j < i && self.entries@[j].key() == p.push(#[trigger] out@[k]@),
                forall|j: int|
                    0 <= j < i && is_child_key_of(#[trigger] self.entries@[j].key(), p)
                        ==> exists|k: int| 0 <= k < out@.len() && out@[k]@
                        == self.entries@[j].key().last(),
                forall|k1: int, k2: int| 0 <= k1 < k2 < out@.len() ==> out@[k1]@ != out@[k2]@,
            decreases self.entries@.len() - i,
        {
            let is_child = {
                let c = &self.entries[i].path;
                if c.len() > 0 && c.len() - 1 == path.len() {
                    let par = parent_segs(c);
                    segs_eq(&par, path)
                } else {
                    false
                }
            };
            proof {
                let ck = self.entries@[i as int].key();
                if ck.len() == p.len() + 1 {
                    assert(ck.drop_last() =~= ck.take(p.len() as int));
                }
                assert(is_child == is_child_key_of(ck, p));
            }
            if is_child {
                let e = &self.entries[i];
                let name = String::from_str(e.path[e.path.len() - 1].as_str());
                proof {
                    let ghost ei = self.entries@[i as int];
                    lemma_child_key(ei.key(), p);
                    assert(name@ == ei.key().last());
                    if exists|k: int| 0 <= k < out@.len() && out@[k]@ == name@ {
                        let k = choose|k: int| 0 <= k < out@.len() && out@[k]@ == name@;
                        let j = choose|j: int|
                            0 <= j < i && self.entries@[j].key() == p.push(out@[k]@);
                        assert(self.entries@[j].key() == ei.key());
                        assert(false);
                    }
                }
                let ghost out0 = out@;
                out.push(name);
                proof {
                    assert forall|k: int| 0 <= k < out@.len() implies exists|j: int|
                        0 <= j < i + 1 && self.entries@[j].key() == p.push(
                            #[trigger] out@[k]@,
                        ) by {
                        if k < out@.len() - 1 {
                            assert(out@[k] == out0[k]);
                            let j = choose|j: int|
                                0 <= j < i && self.entries@[j].key() == p.push(out0[k]@);
                            assert(self.entries@[j].key() == p.push(out@[k]@));
                        } else {
                            assert(self.entries@[i as int].key() == p.push(out@[k]@));
                        }
                    }
                    assert forall|j: int|
                        0 <= j < i + 1 && is_child_key_of(#[trigger] self.entries@[j].key(), p)
                            implies exists|k: int| 0 <= k < out@.len() && out@[k]@
                            == self.entries@[j].key().last() by {
                        if j < i {
                            let k = choose|k: int|
                                0 <= k < out0.len() && out0[k]@ == self.entries@[j].key().last();
                            assert(out@[k] == out0[k]);
                            assert(out@[k]@ == self.entries@[j].key().last());
                        } else {
                            assert(out@[out@.len() - 1]@ == self.entries@[j].key().last());
                        }
                    }
                }
            }
            i = i + 1;
        }
        proof {
            let names = out.deep_view();
            assert forall|k: int| 0 <= k < names.len() implies self.model().contains_key(
                p.push(names[k]),
            ) by {
                assert(names[k] == out@[k]@);
                let j = choose|j: int|
                    0 <= j < self.entries@.len() && self.entries@[j].key() == p.push(out@[k]@);
                lemma_table_model_contains(self.entries@, p.push(names[k]));
            }
            assert forall|n: Seq<char>| self.model().contains_key(
                #[trigger] p.push(n),
            ) implies names.contains(n) by {
                lemma_table_model_contains(self.entries@, p.push(n));
                let j = choose|j: int|
                    0 <= j < self.entries@.len() && self.entries@[j].key() == p.push(n);
                assert(p.push(n).take(p.len() as int) =~= p);
                assert(is_child_key_of(self.entries@[j].key(), p));
                let k = choose|k: int|
                    0 <= k < out@.len() && out@[k]@ == self.entries@[j].key().last();
                assert(names[k] == n);
            }
            assert forall|k1: int, k2: int| 0 <= k1 < k2 < names.len() implies names[k1]
                != names[k2] by {
                assert(names[k1] == out@[k1]@);
                assert(names[k2] == out@[k2]@);
            }
        }
        out
    }

    /// Whether any row lies one level below `path`.
    fn has_child(&self, path: &Vec<String>) -> (r: bool)
        requires
            self.inv(),
        ensures
            r == !has_no_children(self.model(), path.deep_view()),
    {
        let names = self.child_names(path);
        let ghost p = path.deep_view();
        if names.len() > 0 {
            proof {
                assert(names.deep_view()[0] == names@[0]@);
                assert(self.model().contains_key(p.push(names.deep_view()[0])));
            }
            true
        } else {
            proof {
                assert forall|n: Seq<char>| !self.model().contains_key(#[trigger] p.push(n)) by {
                    if self.model().contains_key(p.push(n)) {
                        assert(names.deep_view().contains(n));
                    }
                }
            }
            false
        }
    }
}

impl VFS for MemoryFS {
    closed spec fn model(&self) -> FsTree {
        table_model(self.entries@)
    }

    closed spec fn inv(&self) -> bool {
        keys_unique(self.entries@) && tree_wf(table_model(self.entries@))
    }

    proof fn inv_tree_wf(&self) {
    }

    fn read_dir(&self, path: &Vec<String>) -> (r: Result<Vec<String>, VfsError>) {
        match self.find(path) {
            Some(i) => {
                let is_dir = match &self.entries[i].node {
                    MemNode::Dir => true,
                    MemNode::File(_) => false,
                };
                if is_dir {
                    Ok(self.child_names(path))
                } else {
                    Err(VfsError::FileNotFound { path: render_path(path) })
                }
            },
            None => Err(VfsError::FileNotFound { path: render_path(path) }),
        }
    }

    fn create_dir(&mut self, path: &Vec<String>) -> (r: Result<(), VfsError>) {
        let ghost s0 = self.entries@;
        match self.find(path) {
            Some(_) => Err(VfsError::Other { message: String::from_str("path already exists") }),
            None => {
                if path.len() == 0 {
                    proof {
                        assert(path.deep_view() =~= Seq::<Seq<char>>::empty());
                        assert(false);
                    }
                    Err(VfsError::Other { message: String::new() })
                } else {
                    let par = parent_segs(path);
                    let parent_dir = match self.find(&par) {
                        Some(j) => match &self.entries[j].node {
                            MemNode::Dir => true,
                            MemNode::File(_) => false,
                        },
                        None => false,
                    };
                    if parent_dir {
                        let entry = MemEntry { path: clone_segs(path), node: MemNode::Dir };
                        proof {
                            lemma_table_model_contains(self.entries@, path.deep_view());
                        }
                        self.entries.push(entry);
                        proof {
                            assert(self.entries@.drop_last() =~= s0);
                            assert(keys_unique(self.entries@));
                            lemma_wf_insert(table_model(s0), path.deep_view(), FsNode::Dir);
                        }
                        Ok(())
                    } else {
                        Err(VfsError::FileNotFound { path: render_path(&par) })
                    }
                }
            },
        }
    }

    fn open_file(&self, path: &Vec<String>) -> (r: Result<FileReader, VfsError>) {
        match self.find(path) {
            Some(i) => {
                let content: Option<Vec<u8>> = {
                    let e = &self.entries[i];
                    match &e.node {
                        MemNode::File(bytes) => {
                            let mut copy: Vec<u8> = Vec::new();
                            let mut k: usize = 0;
                            while k < bytes.len()
                                invariant
                                    k <= bytes@.len(),
                                    copy@ == bytes@.take(k as int),
                                decreases bytes@.len() - k,
                            {
                                copy.push(bytes[k]);
                                proof {
                                    assert(copy@ =~= bytes@.take(k + 1));
                                }
                                k = k + 1;
                            }
                            proof {
                                assert(bytes@.take(bytes@.len() as int) =~= bytes@);
                            }
                            Some(copy)
                        },
                        MemNode::Dir => None,
                    }
                };
                match content {
                    Some(bytes) => Ok(FileReader::new(bytes)),
                    None => Err(VfsError::FileNotFound { path: render_path(path) }),
                }
            },
            None => Err(VfsError::FileNotFound { path: render_path(path) }),
        }
    }

    fn create_file(&mut self, path: &Vec<String>) -> (r: Result<FileWriter, VfsError>) {
        let ghost s0 = self.entries@;
        let ghost t0 = table_model(s0);
        let ghost p = path.deep_view();
        match self.find(path) {
            Some(i) => {
                let is_file = match &self.entries[i].node {
                    MemNode::Dir => false,
                    MemNode::File(_) => true,
                };
                if is_file {
                    proof {
                        assert(t0.contains_key(p));
                        if p.len() == 0 {
                            assert(p =~= Seq::<Seq<char>>::empty());
                            assert(t0[p] is Dir);
                            assert(false);
                        }
                    }
                    let e = &mut self.entries[i];
                    e.node = MemNode::File(Vec::new());
                    proof {
                        lemma_table_model_update(s0, i as int, self.entries@[i as int]);
                        assert(self.entries@[i as int].node_model() =~= FsNode::File(Seq::empty()));
                        assert(keys_unique(self.entries@));
                        assert(t0.contains_key(p.drop_last()) && t0[p.drop_last()] is Dir);
                        lemma_wf_insert(t0, p, FsNode::File(Seq::empty()));
                    }
                    Ok(FileWriter::new(clone_segs(path), 0))
                } else {
                    Err(VfsError::Other { message: String::from_str("path is a directory") })
                }
            },
            None => {
                if path.len() == 0 {
                    proof {
                        assert(p =~= Seq::<Seq<char>>::empty());
                        assert(false);
                    }
                    Err(VfsError::Other { message: String::new() })
                } else {
                    let par = parent_segs(path);
                    let parent_dir = match self.find(&par) {
                        Some(j) => match &self.entries[j].node {
                            MemNode::Dir => true,
                            MemNode::File(_) => false,
                        },
                        None => false,
                    };
                    if parent_dir {
                        let entry = MemEntry {
                            path: clone_segs(path),
                            node: MemNode::File(Vec::new()),
                        };
                        proof {
                            lemma_table_model_contains(self.entries@, p);
                        }
                        self.entries.push(entry);
                        proof {
                            assert(self.entries@.drop_last() =~= s0);
                            assert(keys_unique(self.entries@));
                            assert(self.entries@.last().node_model() =~= FsNode::File(
                                Seq::empty(),
                            ));
                            lemma_wf_insert(t0, p, FsNode::File(Seq::empty()));
                        }
                        Ok(FileWriter::new(clone_segs(path), 0))
                    } else {
                        Err(VfsError::FileNotFound { path: render_path(&par) })
                    }
                }
            },
        }
    }

    fn append_file(&mut self, path: &Vec<String>) -> (r: Result<FileWriter, VfsError>) {
        let ghost s0 = self.entries@;
        let ghost t0 = table_model(s0);
        let ghost p = path.deep_view();
        match self.find(path) {
            Some(i) => {
                let end: Option<usize> = match &self.entries[i].node {
                    MemNode::Dir => None,
                    MemNode::File(bytes) => Some(bytes.len()),
                };
                match end {
                    Some(n) => Ok(FileWriter::new(clone_segs(path), n)),
                    None => Err(
                        VfsError::Other { message: String::from_str("path is a directory") },
                    ),
                }
            },
            None => {
                if path.len() == 0 {
                    proof {
                        assert(p =~= Seq::<Seq<char>>::empty());
                        assert(false);
                    }
                    Err(VfsError::Other { message: String::new() })
                } else {
                    let par = parent_segs(path);
                    let parent_dir = match self.find(&par) {
                        Some(j) => match &self.entries[j].node {
                            MemNode::Dir => true,
                            MemNode::File(_) => false,
                        },
                        None => false,
                    };
                    if parent_dir {
                        let entry = MemEntry {
                            path: clone_segs(path),
                            node: MemNode::File(Vec::new()),
                        };
                        proof {
                            lemma_table_model_contains(self.entries@, p);
                        }
                        self.entries.push(entry);
                        proof {
                            assert(self.entries@.drop_last() =~= s0);
                            assert(keys_unique(self.entries@));
                            assert(self.entries@.last().node_model() =~= FsNode::File(
                                Seq::empty(),
                            ));
                            lemma_wf_insert(t0, p, FsNode::File(Seq::empty()));
                        }
                        Ok(FileWriter::new(clone_segs(path), 0))
                    } else {
                        Err(VfsError::FileNotFound { path: render_path(&par) })
                    }
                }
            },
        }
    }

    fn write_file(&mut self, path: &Vec<String>, pos: usize, data: &[u8]) -> (r: Result<
        usize,
        VfsError,
    >) {
        let ghost s0 = self.entries@;
        let ghost t0 = table_model(s0);
        let ghost p = path.deep_view();
        match self.find(path) {
            Some(i) => {
                let is_file = match &self.entries[i].node {
                    MemNode::Dir => false,
                    MemNode::File(_) => true,
                };
                if is_file {
                    proof {
                        assert(t0.contains_key(p));
                        if p.len() == 0 {
                            assert(p =~= Seq::<Seq<char>>::empty());
                            assert(t0[p] is Dir);
                            assert(false);
                        }
                    }
                    let ghost old_bytes = t0[p]->File_0;
                    let e = &mut self.entries[i];
                    let (spliced, end) = match &e.node {
                        MemNode::File(bytes) => splice_exec(bytes, pos, data),
                        MemNode::Dir => (Vec::new(), 0),
                    };
                    e.node = MemNode::File(spliced);
                    proof {
                        lemma_table_model_update(s0, i as int, self.entries@[i as int]);
                        assert(self.entries@[i as int].node_model() == FsNode::File(
                            splice_bytes(old_bytes, pos as int, data@),
                        ));
                        assert(keys_unique(self.entries@));
                        assert(t0.contains_key(p.drop_last()) && t0[p.drop_last()] is Dir);
                        lemma_wf_insert(t0, p, FsNode::File(splice_bytes(old_bytes, pos as int, data@)));
                    }
                    Ok(end)
                } else {
                    Err(VfsError::Other { message: String::from_str("path is a directory") })
                }
            },
            None => Err(VfsError::FileNotFound { path: render_path(path) }),
        }
    }

    fn metadata(&self, path: &Vec<String>) -> (r: Result<VMetadata, VfsError>) {
        match self.find(path) {
            Some(i) => match &self.entries[i].node {
                MemNode::Dir => Ok(VMetadata { file_type: VFileType::Directory, len: 0 }),
                MemNode::File(bytes) => Ok(
                    VMetadata { file_type: VFileType::File, len: bytes.len() as u64 },
                ),
            },
            None => Err(VfsError::FileNotFound { path: render_path(path) }),
        }
    }

    fn path_exists(&self, path: &Vec<String>) -> (r: bool) {
        self.find(path).is_some()
    }

    fn remove_file(&mut self, path: &Vec<String>) -> (r: Result<(), VfsError>) {
        let ghost s0 = self.entries@;
        let ghost t0 = table_model(s0);
        let ghost p = path.deep_view();
        match self.find(path) {
            Some(i) => {
                let is_file = match &self.entries[i].node {
                    MemNode::Dir => false,
                    MemNode::File(_) => true,
                };
                if is_file {
                    proof {
                        if p.len() == 0 {
                            assert(p =~= Seq::<Seq<char>>::empty());
                            assert(t0[p] is Dir);
                            assert(false);
                        }
                        lemma_table_model_remove(s0, i as int);
                    }
                    self.entries.remove(i);
                    proof {
                        assert forall|a: int, b: int|
                            0 <= a < b < self.entries@.len() implies self.entries@[a].key()
                            != self.entries@[b].key() by {
                            assert(self.entries@[a] == if a < i as int {
                                s0[a]
                            } else {
                                s0[a + 1]
                            });
                            assert(self.entries@[b] == if b < i as int {
                                s0[b]
                            } else {
                                s0[b + 1]
                            });
                        }
                        lemma_wf_remove(t0, p);
                    }
                    Ok(())
                } else {
                    Err(VfsError::Other { message: String::from_str("path is a directory") })
                }
            },
            None => Err(VfsError::FileNotFound { path: render_path(path) }),
        }
    }

    fn remove_dir(&mut self, path: &Vec<String>) -> (r: Result<(), VfsError>) {
        let ghost s0 = self.entries@;
        let ghost t0 = table_model(s0);
        let ghost p = path.deep_view();
        match self.find(path) {
            Some(i) => {
                let is_dir = match &self.entries[i].node {
                    MemNode::Dir => true,
                    MemNode::File(_) => false,
                };
                if !is_dir {
                    Err(VfsError::Other { message: String::from_str("path is a file") })
                } else if path.len() == 0 {
                    proof {
                        assert(p =~= Seq::<Seq<char>>::empty());
                    }
                    Err(VfsError::Other {
                        message: String::from_str("cannot remove the root directory"),
                    })
                } else if self.has_child(path) {
                    Err(VfsError::Other { message: String::from_str("directory is not empty") })
                } else {
                    proof {
                        lemma_table_model_remove(s0, i as int);
                    }
                    self.entries.remove(i);
                    proof {
                        assert forall|a: int, b: int|
                            0 <= a < b < self.entries@.len() implies self.entries@[a].key()
                            != self.entries@[b].key() by {
                            assert(self.entries@[a] == if a < i as int {
                                s0[a]
                            } else {
                                s0[a + 1]
                            });
                            assert(self.entries@[b] == if b < i as int {
                                s0[b]
                            } else {
                                s0[b + 1]
                            });
                        }
                        lemma_wf_remove(t0, p);
                    }
                    Ok(())
                }
            },
            None => Err(VfsError::FileNotFound { path: render_path(path) }),
        }
    }
}

/// The spliced buffer and the cursor position after the commit.
fn splice_exec(content: &Vec<u8>, pos: usize, data: &[u8]) -> (r: (Vec<u8>, usize))
    ensures
        r.0@ == splice_bytes(content@, pos as int, data@),
        r.1 == (if pos <= content@.len() {
            pos as int
        } else {
            content@.len() as int
        }) + data@.len(),
{
    let at = if pos <= content.len() {
        pos
    } else {
        content.len()
    };
    let mut out: Vec<u8> = Vec::new();
    let mut k: usize = 0;
    while k < at
        invariant
            at <= content@.len(),
            k <= at,
            out@ == content@.take(k as int),
        decreases at - k,
    {
        out.push(content[k]);
        proof {
            assert(out@ =~= content@.take(k + 1));
        }
        k = k + 1;
    }
    let mut d: usize = 0;
    while d < data.len()
        invariant
            at <= content@.len(),
            d <= data@.len(),
            out@ == content@.take(at as int) + data@.take(d as int),
        decreases data@.len() - d,
    {
        let b = data[d];
        out.push(b);
        proof {
            assert(out@ =~= content@.take(at as int) + data@.take(d + 1));
        }
        d = d + 1;
    }
    proof {
        assert(data@.take(data@.len() as int) =~= data@);
        assert(content@.take(at as int) + data@ =~= out@);
    }
    let end = out.len();
    if content.len() - at > data.len() {
        let mut j: usize = at + data.len();
        while j < content.len()
            invariant
                at + data@.len() <= j <= content@.len(),
                out@ == content@.take(at as int) + data@ + content@.subrange(
                    at + data@.len(),
                    j as int,
                ),
            decreases content@.len() - j,
        {
            out.push(content[j]);
            proof {
                assert(out@ =~= content@.take(at as int) + data@ + content@.subrange(
                    at + data@.len(),
                    j + 1,
                ));
            }
            j = j + 1;
        }
        proof {
            assert(out@ =~= splice_bytes(content@, pos as int, data@));
        }
        (out, end)
    } else {
        proof {
            assert(out@ =~= splice_bytes(content@, pos as int, data@));
        }
        (out, end)
    }
}

} // verus!
