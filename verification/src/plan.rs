//! The operations a composed mount requires, in execution order.
//!
//! The engine never touches the mount namespace itself: it emits a plan, and
//! the caller performs each operation with the corresponding system call.

use vstd::prelude::*;

verus! {

/// One mount-related operation. Paths are absolute.
#[derive(Clone, Debug, PartialEq)]
pub enum MountOp {
    /// Mount a fresh tmpfs at `target`.
    MountTmpfs { target: String },
    /// Set mount propagation of `target` to private.
    MakePrivate { target: String },
    /// Bind-mount `source` onto `target`.
    BindMount { source: String, target: String },
    /// Bind-mount `target` onto itself, making it an independent mount.
    BindSelf { target: String },
    /// Move the mount at `source` onto `target`.
    MoveMount { source: String, target: String },
    /// Create an empty regular file at `target`.
    CreateFile { target: String },
    /// Create the directory `target`.
    CreateDir { target: String },
    /// Create the directory `target` and any missing parents.
    CreateDirAll { target: String },
    /// Read the symlink `source` and reproduce it at `target`, copying the
    /// link-level security label.
    CloneSymlink { source: String, target: String },
    /// Copy mode bits, then owner and group, then the security label from
    /// `source` to `target`, in that order.
    CloneAttrs { source: String, target: String },
    /// Mount an overlay filesystem at `target` with the given options.
    MountOverlay { target: String, options: String },
    /// Detach-unmount `target`.
    UnmountDetach { target: String },
    /// Remove the (empty) directory `target`.
    RemoveDir { target: String },
}

/// Errors the planner reports; paths identify the offending tree position.
#[derive(Clone, Debug, PartialEq)]
pub enum EngineError {
    /// A file node stands at a position with no contributing module file.
    RootFile { path: String },
    /// A symlink node stands at a position with no contributing module file.
    RootSymlink { path: String },
    /// A directory that needs a tmpfs skeleton has neither a stock nor a
    /// module counterpart to copy metadata from.
    RootDir { path: String },
    /// A synthesized directory carries the opaque (replace) flag.
    ReplacedRoot { path: String },
    /// A child that needs a tmpfs could not get one because its parent is a
    /// synthesized root; the child is skipped.
    SkippedChild { path: String, name: String },
}

/// Ghost mirror of [`MountOp`].
pub enum OpView {
    MountTmpfs { target: Seq<char> },
    MakePrivate { target: Seq<char> },
    BindMount { source: Seq<char>, target: Seq<char> },
    BindSelf { target: Seq<char> },
    MoveMount { source: Seq<char>, target: Seq<char> },
    CreateFile { target: Seq<char> },
    CreateDir { target: Seq<char> },
    CreateDirAll { target: Seq<char> },
    CloneSymlink { source: Seq<char>, target: Seq<char> },
    CloneAttrs { source: Seq<char>, target: Seq<char> },
    MountOverlay { target: Seq<char>, options: Seq<char> },
    UnmountDetach { target: Seq<char> },
    RemoveDir { target: Seq<char> },
}

/// Ghost mirror of a mount operation.
pub open spec fn op_view(op: MountOp) -> OpView {
    match op {
        MountOp::MountTmpfs { target } => OpView::MountTmpfs { target: target@ },
        MountOp::MakePrivate { target } => OpView::MakePrivate { target: target@ },
        MountOp::BindMount { source, target } => OpView::BindMount {
            source: source@,
            target: target@,
        },
        MountOp::BindSelf { target } => OpView::BindSelf { target: target@ },
        MountOp::MoveMount { source, target } => OpView::MoveMount {
            source: source@,
            target: target@,
        },
        MountOp::CreateFile { target } => OpView::CreateFile { target: target@ },
        MountOp::CreateDir { target } => OpView::CreateDir { target: target@ },
        MountOp::CreateDirAll { target } => OpView::CreateDirAll { target: target@ },
        MountOp::CloneSymlink { source, target } => OpView::CloneSymlink {
            source: source@,
            target: target@,
        },
        MountOp::CloneAttrs { source, target } => OpView::CloneAttrs {
            source: source@,
            target: target@,
        },
        MountOp::MountOverlay { target, options } => OpView::MountOverlay {
            target: target@,
            options: options@,
        },
        MountOp::UnmountDetach { target } => OpView::UnmountDetach { target: target@ },
        MountOp::RemoveDir { target } => OpView::RemoveDir { target: target@ },
    }
}

/// Ghost mirrors of an operation sequence, elementwise.
pub open spec fn op_views(ops: Seq<MountOp>) -> Seq<OpView> {
    Seq::new(ops.len(), |i: int| op_view(ops[i]))
}

pub proof fn lemma_op_views_push(a: Seq<MountOp>, x: MountOp)
    ensures
        op_views(a.push(x)) =~= op_views(a).push(op_view(x)),
{
    assert forall|i: int| 0 <= i < a.len() + 1 implies op_views(a.push(x))[i] == op_views(a).push(
        op_view(x),
    )[i] by {
        if i < a.len() {
            assert(a.push(x)[i] == a[i]);
        } else {
            assert(a.push(x)[i] == x);
        }
    }
}

/// Ghost mirror of [`EngineError`].
pub enum ErrView {
    RootFile { path: Seq<char> },
    RootSymlink { path: Seq<char> },
    RootDir { path: Seq<char> },
    ReplacedRoot { path: Seq<char> },
    SkippedChild { path: Seq<char>, name: Seq<char> },
}

/// Ghost mirror of a planning error.
pub open spec fn err_view(e: EngineError) -> ErrView {
    match e {
        EngineError::RootFile { path } => ErrView::RootFile { path: path@ },
        EngineError::RootSymlink { path } => ErrView::RootSymlink { path: path@ },
        EngineError::RootDir { path } => ErrView::RootDir { path: path@ },
        EngineError::ReplacedRoot { path } => ErrView::ReplacedRoot { path: path@ },
        EngineError::SkippedChild { path, name } => ErrView::SkippedChild {
            path: path@,
            name: name@,
        },
    }
}

/// Ghost mirrors of an error sequence, elementwise.
pub open spec fn err_views(es: Seq<EngineError>) -> Seq<ErrView> {
    Seq::new(es.len(), |i: int| err_view(es[i]))
}

pub proof fn lemma_err_views_push(a: Seq<EngineError>, x: EngineError)
    ensures
        err_views(a.push(x)) =~= err_views(a).push(err_view(x)),
{
    assert forall|i: int| 0 <= i < a.len() + 1 implies err_views(a.push(x))[i] == err_views(
        a,
    ).push(err_view(x))[i] by {
        if i < a.len() {
            assert(a.push(x)[i] == a[i]);
        } else {
            assert(a.push(x)[i] == x);
        }
    }
}

} // verus!
