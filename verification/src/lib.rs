//! Compares two snapshots of a fully-resolved package dependency graph and
//! reports, for every workspace root, where the effective dependency closure
//! of that root first diverges.  Each divergence is reported as a *trail*:
//! the chain of `(name, version)` pairs from the root down to the first
//! point of difference.  The set of filesystem paths of the workspace roots
//! implicated by at least one trail is reported alongside the trails.

pub mod diff;
pub mod errors;
pub mod ids;
pub mod laws;
pub mod resolve;
pub mod snapshot;
pub mod trace;

pub use diff::DiffResult;
pub use diff::diff_resolve;
pub use errors::DiffError;
pub use ids::BareId;
pub use ids::FullId;
pub use ids::strip_source;
pub use snapshot::Node;
pub use snapshot::Snapshot;
pub use snapshot::WorkspaceRoot;
