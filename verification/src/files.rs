//! File operations that the library plans and the caller performs, in
//! order, stopping at the first that fails, with a model of what they do to
//! the files.
use vstd::prelude::*;

verus! {

/// One file operation on `/`-separated paths.
#[derive(Debug, Clone)]
pub enum FileOp {
    /// Copy the first file over the second, creating its directory.
    Copy(String, String),
    /// Copy a sidecar, leaving out the fields that change on every capture
    /// (`captured_at` and each platform's `run_id`), creating the directory.
    CopySidecar(String, String),
    /// Delete a file.
    Remove(String),
}

/// A file operation on paths as character sequences.
pub enum OpView {
    Copy(Seq<char>, Seq<char>),
    CopySidecar(Seq<char>, Seq<char>),
    Remove(Seq<char>),
}

pub open spec fn op_view(op: FileOp) -> OpView {
    match op {
        FileOp::Copy(a, b) => OpView::Copy(a@, b@),
        FileOp::CopySidecar(a, b) => OpView::CopySidecar(a@, b@),
        FileOp::Remove(a) => OpView::Remove(a@),
    }
}

pub open spec fn op_views(ops: Seq<FileOp>) -> Seq<OpView> {
    ops.map_values(|op: FileOp| op_view(op))
}

/// The files as a map from path to contents.
pub type Files = Map<Seq<char>, Seq<u8>>;

/// What one operation does to `fs`, or `None` where it fails: a copy needs
/// its source, a removal its file. A copied sidecar holds `rewrite` of its
/// source, whatever that rewriting is.
pub open spec fn apply_op(fs: Files, op: OpView, rewrite: spec_fn(Seq<u8>) -> Seq<u8>) -> Option<
    Files,
> {
    match op {
        OpView::Copy(a, b) => if fs.dom().contains(a) {
            Some(fs.insert(b, fs[a]))
        } else {
            None
        },
        OpView::CopySidecar(a, b) => if fs.dom().contains(a) {
            Some(fs.insert(b, rewrite(fs[a])))
        } else {
            None
        },
        OpView::Remove(a) => if fs.dom().contains(a) {
            Some(fs.remove(a))
        } else {
            None
        },
    }
}

/// The operations done in order; `None` once one fails.
pub open spec fn apply_ops(fs: Files, ops: Seq<OpView>, rewrite: spec_fn(Seq<u8>) -> Seq<u8>) -> Option<
    Files,
>
    decreases ops.len(),
{
    if ops.len() == 0 {
        Some(fs)
    } else {
        match apply_ops(fs, ops.drop_last(), rewrite) {
            Some(g) => apply_op(g, ops.last(), rewrite),
            None => None,
        }
    }
}

/// Deleting `path` when it exists; nothing otherwise.
pub open spec fn removal(path: Seq<char>, exists: bool) -> Seq<OpView> {
    if exists {
        seq![OpView::Remove(path)]
    } else {
        Seq::empty()
    }
}

/// The operations that delete `path` if it exists, given whether it does.
pub fn remove_if_exists(path: String, exists: bool) -> (r: Vec<FileOp>)
    ensures
        op_views(r@) == removal(path@, exists),
{
    let mut r: Vec<FileOp> = Vec::new();
    if exists {
        r.push(FileOp::Remove(path));
    }
    assert(op_views(r@) =~= removal(path@, exists));
    r
}

} // verus!
