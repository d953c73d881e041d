//! Open file handles.
//!
//! A reader is an independent, read-only snapshot of a file's bytes, taken
//! at the moment the file was opened: later writes to the file, or its
//! removal, cannot reach it.  A writer is a cursor bound to one file's
//! path; every write commits its bytes into the backend at once, so the
//! change is visible to any reader or writer opened afterwards, but never
//! to readers opened before.

use vstd::prelude::*;

use crate::errors::VfsError;
use crate::model::can_write_file;
use crate::model::file_bytes;
use crate::model::splice_bytes;
use crate::model::splice_end;
use crate::model::write_file_error;
use crate::model::FsNode;
use crate::vpath::FileSystem;
use crate::vpath::VFS;

verus! {

/// A read-only snapshot of a file's content, with a read cursor.
#[derive(Debug)]
pub struct FileReader {
    content: Vec<u8>,
    pos: usize,
}

impl FileReader {
    /// The snapshot taken when the file was opened.
    pub closed spec fn bytes(&self) -> Seq<u8> {
        self.content@
    }

    /// The read cursor.
    pub closed spec fn cursor(&self) -> int {
        self.pos as int
    }

    /// The cursor never leaves the snapshot.
    pub open spec fn wf(&self) -> bool {
        0 <= self.cursor() <= self.bytes().len()
    }

    /// A fresh reader over `content`, cursor at the start.
    pub fn new(content: Vec<u8>) -> (r: FileReader)
        ensures
            r.bytes() == content@,
            r.cursor() == 0,
            r.wf(),
    {
        FileReader { content, pos: 0 }
    }

    /// Read everything from the cursor to the end of the snapshot.
    pub fn read_to_end(&mut self) -> (r: Vec<u8>)
        requires
            old(self).wf(),
        ensures
            final(self).wf(),
            final(self).bytes() == old(self).bytes(),
            final(self).cursor() == old(self).bytes().len(),
            r@ == old(self).bytes().skip(old(self).cursor()),
    {
        let ghost c0 = self.content@;
        let ghost p0 = self.pos as int;
        let mut out: Vec<u8> = Vec::new();
        while self.pos < self.content.len()
            invariant
                self.content@ == c0,
                0 <= p0 <= self.pos <= c0.len(),
                out@ == c0.subrange(p0, self.pos as int),
            decreases self.content.len() - self.pos,
        {
            let b = self.content[self.pos];
            out.push(b);
            proof {
                assert(out@ =~= c0.subrange(p0, self.pos + 1));
            }
            self.pos = self.pos + 1;
        }
        proof {
            assert(c0.subrange(p0, c0.len() as int) =~= c0.skip(p0));
        }
        out
    }

    /// Move the cursor to `pos`, clamped to the end of the snapshot.
    pub fn seek(&mut self, pos: usize) -> (r: usize)
        requires
            old(self).wf(),
        ensures
            final(self).wf(),
            final(self).bytes() == old(self).bytes(),
            final(self).cursor() == if pos <= old(self).bytes().len() {
                pos as int
            } else {
                old(self).bytes().len() as int
            },
            r as int == final(self).cursor(),
    {
        if pos <= self.content.len() {
            self.pos = pos;
        } else {
            self.pos = self.content.len();
        }
        self.pos
    }

    /// How many bytes the snapshot holds.
    pub fn snapshot_len(&self) -> (n: usize)
        ensures
            n == self.bytes().len(),
    {
        self.content.len()
    }
}

/// An exclusive write cursor bound to one file's path.
#[derive(Debug)]
pub struct FileWriter {
    path: Vec<String>,
    pos: usize,
}

impl FileWriter {
    /// The path of the file the writer is bound to.
    pub closed spec fn target(&self) -> Seq<Seq<char>> {
        self.path.deep_view()
    }

    /// The write cursor.
    pub closed spec fn cursor(&self) -> int {
        self.pos as int
    }

    /// A writer bound to `path` with its cursor at `pos`.
    pub fn new(path: Vec<String>, pos: usize) -> (r: FileWriter)
        ensures
            r.target() == path.deep_view(),
            r.cursor() == pos,
    {
        FileWriter { path, pos }
    }

    /// Commit `data` into the file at the cursor.  The bytes are visible at
    /// once to anything opened after this call returns; a reader opened
    /// earlier keeps its snapshot.
    pub fn write<B: VFS>(&mut self, fs: &mut FileSystem<B>, data: &[u8]) -> (r: Result<
        usize,
        VfsError,
    >)
        requires
            old(fs).inv(),
        ensures
            final(fs).inv(),
            final(self).target() == old(self).target(),
            ({
                let t = old(fs).model();
                let p = old(self).target();
                if can_write_file(t, p) {
                    &&& r matches Ok(n) && n == data@.len()
                    &&& final(fs).model() == t.insert(
                        p,
                        FsNode::File(splice_bytes(file_bytes(t, p), old(self).cursor(), data@)),
                    )
                    &&& final(self).cursor() == splice_end(
                        file_bytes(t, p),
                        old(self).cursor(),
                        data@,
                    )
                } else {
                    &&& final(fs).model() == t
                    &&& final(self).cursor() == old(self).cursor()
                    &&& r matches Err(e) && write_file_error(t, p, e)
                }
            }),
    {
        proof {
            fs.reveal_parts();
        }
        match fs.vfs.write_file(&self.path, self.pos, data) {
            Ok(end) => {
                proof {
                    fs.reveal_parts();
                }
                self.pos = end;
                Ok(data.len())
            },
            Err(e) => {
                proof {
                    fs.reveal_parts();
                }
                Err(e)
            },
        }
    }
}

} // verus!
