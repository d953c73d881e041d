//! Properties that hold across several operations, proved once over the
//! models that the operations' contracts are stated in.

use vstd::prelude::*;

use crate::errors::root_cause_of;
use crate::errors::VfsError;
use crate::model::can_create_file;
use crate::model::can_open_file;
use crate::model::can_write_file;
use crate::model::create_all_from;
use crate::model::display_path;
use crate::model::err_not_found;
use crate::model::file_bytes;
use crate::model::can_remove_dir;
use crate::model::err_other;
use crate::model::has_no_children;
use crate::model::msg_not_empty;
use crate::model::remove_dir_error;
use crate::model::remove_file_error;
use crate::model::splice_bytes;
use crate::model::FsNode;
use crate::model::FsTree;

verus! {

/// A successful `create_dir_all` walk is idempotent: walked again from the
/// tree it produced, it changes nothing and succeeds again.  The tree it
/// produced also keeps every node the starting tree had.
pub proof fn lemma_create_dir_all_idempotent(t: FsTree, p: Seq<Seq<char>>, i: int)
    requires
        1 <= i,
        create_all_from(t, p, i).1 is None,
    ensures
        forall|k: Seq<Seq<char>>|
            t.contains_key(k) ==> #[trigger] create_all_from(t, p, i).0.contains_key(k),
        create_all_from(create_all_from(t, p, i).0, p, i) == (
            create_all_from(t, p, i).0,
            None::<int>,
        ),
    decreases p.len() + 1 - i,
{
    if i <= p.len() {
        let q = p.take(i);
        if t.contains_key(q) {
            lemma_create_dir_all_idempotent(t, p, i + 1);
        } else {
            lemma_create_dir_all_idempotent(t.insert(q, FsNode::Dir), p, i + 1);
        }
    }
}

/// Writing bytes into a freshly-truncated file and opening it afterwards
/// reads back exactly those bytes: truncation leaves nothing to splice
/// around, and a snapshot read from the start returns the whole content.
pub proof fn lemma_write_read_round_trip(t: FsTree, p: Seq<Seq<char>>, data: Seq<u8>)
    requires
        can_create_file(t, p),
    ensures
        ({
            let t1 = t.insert(p, FsNode::File(Seq::empty()));
            let t2 = t1.insert(p, FsNode::File(splice_bytes(Seq::empty(), 0, data)));
            &&& can_write_file(t1, p)
            &&& splice_bytes(Seq::empty(), 0, data) == data
            &&& can_open_file(t2, p)
            &&& file_bytes(t2, p) == data
            &&& data.skip(0) == data
        }),
{
    assert(splice_bytes(Seq::empty(), 0, data) =~= data);
    assert(data.skip(0) =~= data);
}

/// On a path that does not exist, the failures of `open_file`, `metadata`,
/// `remove_file` and `remove_dir` all bottom out in `FileNotFound` naming
/// that path, through however many context frames the path layer added.
pub proof fn lemma_missing_path_errors(t: FsTree, p: Seq<Seq<char>>, e: VfsError, cause: VfsError)
    requires
        !t.contains_key(p),
        e matches VfsError::WithContext { context, cause: c } && *c == cause,
        err_not_found(cause, p) || remove_file_error(t, p, cause) || remove_dir_error(t, p, cause),
    ensures
        root_cause_of(e) matches VfsError::FileNotFound { path } && path@ == display_path(p),
{
    assert(root_cause_of(e) == root_cause_of(cause));
    assert(cause matches VfsError::FileNotFound { path } && path@ == display_path(p));
    assert(root_cause_of(cause) == cause);
}

/// A non-empty, non-root directory refuses `remove_dir` with an `Other`
/// error; in any tree where the directory still stands but every child is
/// gone, the same call is owed success.
pub proof fn lemma_remove_dir_after_children(
    t: FsTree,
    p: Seq<Seq<char>>,
    e: VfsError,
    t2: FsTree,
)
    requires
        t.contains_key(p),
        t[p] is Dir,
        p.len() > 0,
        !has_no_children(t, p),
        remove_dir_error(t, p, e),
        t2.contains_key(p),
        t2[p] == t[p],
        has_no_children(t2, p),
    ensures
        err_other(e, msg_not_empty()),
        can_remove_dir(t2, p),
{
}

} // verus!
