//! The single logical operation of the library: compare two snapshots
//! and report every divergence trail, together with the filesystem paths
//! of the workspace roots the trails implicate.
//!
//! The old snapshot's declared roots are resolved to nodes first; the
//! tracer then walks from each root node in snapshot order; finally the
//! trails are mapped back to root paths.  All failures are fatal: no
//! partial result is returned.

use vstd::prelude::*;

use crate::errors::DiffError;
use crate::errors::ErrKey;
use crate::ids::BareId;
use crate::ids::BareKey;
use crate::ids::FullKey;
use crate::resolve::all_roots_located;
use crate::resolve::first_missing_root;
use crate::resolve::resolve_paths;
use crate::resolve::resolve_paths_spec;
use crate::resolve::resolve_roots;
use crate::resolve::root_ids;
use crate::resolve::root_matches;
use crate::snapshot::RootKey;
use crate::snapshot::SnapKey;
use crate::snapshot::Snapshot;
use crate::snapshot::lemma_node_map_dom;
use crate::snapshot::node_map;
use crate::trace::trace_roots;
use crate::trace::lemma_trace_list_extends;
use crate::trace::trace_list;
use crate::trace::visited_ok;

verus! {

/// What a diff reports: the divergence trails, one per found divergence,
/// and the filesystem paths of the workspace roots they start at, in
/// order of first appearance and without repetition.
#[derive(Debug)]
pub struct DiffResult {
    pub trails: Vec<Vec<BareId>>,
    pub affected_paths: Vec<String>,
}

/// Every force-modified member names a declared workspace root.
pub open spec fn forced_are_roots(roots: Seq<RootKey>, forced: Seq<BareKey>) -> bool {
    forall|i: int| 0 <= i < forced.len() ==> root_matches(roots, #[trigger] forced[i])
}

/// The whole operation, stated over snapshot values: resolve the root
/// nodes of the old snapshot, walk from each in snapshot order with an
/// empty trail and ancestry, and resolve the trails' root paths.
pub open spec fn diff_spec(old: SnapKey, new: SnapKey, forced: Seq<BareKey>) -> Result<
    (Seq<Seq<BareKey>>, Seq<Seq<char>>),
    ErrKey,
> {
    match first_missing_root(old.nodes, old.roots) {
        Some(b) => Err(ErrKey::MissingRoot(b)),
        None => match trace_list(
            node_map(old.nodes),
            node_map(new.nodes),
            forced,
            root_ids(old.nodes, old.roots),
            Seq::empty(),
            Seq::empty(),
        ) {
            Err(e) => Err(e),
            Ok(trails) => match resolve_paths_spec(old.roots, trails, Seq::empty()) {
                Err(e) => Err(e),
                Ok(paths) => Ok((trails, paths)),
            },
        },
    }
}

/// Compares the two snapshots and reports every divergence trail and the
/// affected workspace root paths, exactly as [`diff_spec`] says.
///
/// `forced` holds the `(name, version)` pairs of workspace members known
/// to be modified even where the graphs agree; each must name a declared
/// workspace root of the old snapshot.
pub fn diff_resolve(first: &Snapshot, second: &Snapshot, forced: &Vec<BareId>) -> (r: Result<
    DiffResult,
    DiffError,
>)
    requires
        first.wf(),
        second.wf(),
        all_roots_located(first@.roots),
        forced_are_roots(first@.roots, forced.deep_view()),
    ensures
        match r {
            Ok(res) => diff_spec(first@, second@, forced.deep_view()) == Ok::<
                (Seq<Seq<BareKey>>, Seq<Seq<char>>),
                ErrKey,
            >((res.trails.deep_view(), res.affected_paths.deep_view())),
            Err(e) => diff_spec(first@, second@, forced.deep_view()) == Err::<
                (Seq<Seq<BareKey>>, Seq<Seq<char>>),
                ErrKey,
            >(e@),
        },
{
    let ghost om = node_map(first@.nodes);
    let ghost nm = node_map(second@.nodes);
    let ghost fv = forced.deep_view();
    proof {
        lemma_node_map_dom(first@.nodes);
    }

    let ids = match resolve_roots(first) {
        Ok(ids) => ids,
        Err(e) => {
            return Err(e);
        },
    };

    let trails = match trace_roots(first, second, forced, &ids) {
        Ok(ts) => ts,
        Err(e) => {
            return Err(e);
        },
    };
    proof {
        assert(visited_ok(om, Seq::<FullKey>::empty()));
        lemma_trace_list_extends(om, nm, fv, ids.deep_view(), Seq::empty(), Seq::empty());
    }

    let paths = match resolve_paths(first, &trails) {
        Ok(p) => p,
        Err(e) => {
            return Err(e);
        },
    };
    Ok(DiffResult { trails, affected_paths: paths })
}

} // verus!
