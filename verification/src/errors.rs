//! Failures of a diff operation.
//!
//! All of these are fatal: the operation returns no partial result.  A
//! lookup failure never silently skips a root or an edge; it names the
//! offending identifier and terminates the whole diff.

use vstd::prelude::*;

use crate::ids::BareId;
use crate::ids::BareKey;
use crate::ids::FullId;
use crate::ids::FullKey;

verus! {

/// Mathematical value of a [`DiffError`].
pub ghost enum ErrKey {
    /// A declared workspace root has no corresponding node in the old
    /// snapshot.
    MissingRoot(BareKey),
    /// A name standing first in a trail has no matching workspace root
    /// entry, so no path can be resolved for it.
    MissingPathMapping(Seq<char>),
    /// A node referenced by a dependency edge does not exist in the old
    /// snapshot's node map.
    MalformedSnapshot(FullKey),
    /// A node's full identity recurred within one trail's own ancestry:
    /// the dependency relation is not acyclic.
    CycleDetected(FullKey),
}

/// Why a diff operation was aborted.
#[derive(Debug, PartialEq, Eq)]
pub enum DiffError {
    /// A declared workspace root has no corresponding node in the old
    /// snapshot: the snapshot is malformed and no partial diff is made.
    MissingRoot(BareId),
    /// A name standing first in a trail matches no workspace root entry,
    /// so no path can be resolved for it.
    MissingPathMapping(String),
    /// A dependency edge of the old snapshot points at a node that the
    /// old snapshot does not hold.
    MalformedSnapshot(FullId),
    /// A node's full identity recurred within one trail's own ancestry:
    /// the dependency relation is not the DAG the traversal assumes.
    CycleDetected(FullId),
}

impl View for DiffError {
    type V = ErrKey;

    open spec fn view(&self) -> ErrKey {
        match self {
            DiffError::MissingRoot(b) => ErrKey::MissingRoot(b@),
            DiffError::MissingPathMapping(n) => ErrKey::MissingPathMapping(n@),
            DiffError::MalformedSnapshot(f) => ErrKey::MalformedSnapshot(f@),
            DiffError::CycleDetected(f) => ErrKey::CycleDetected(f@),
        }
    }
}

} // verus!
