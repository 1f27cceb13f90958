//! The two lookups around the tracer.
//!
//! The *root resolver* finds, in the old snapshot, the node of every
//! declared workspace root, matching by `(name, version)`; a declared
//! root without a node makes the whole snapshot malformed and aborts the
//! operation.  The *path resolver* maps each finished trail back to the
//! filesystem location of the workspace root it starts at: the root's
//! declared location uses a local path reference scheme, and the scheme
//! prefix is stripped to obtain the plain path.

use vstd::prelude::*;

use crate::errors::DiffError;
use crate::errors::ErrKey;
use crate::ids::BareId;
use crate::ids::BareKey;
use crate::ids::FullId;
use crate::ids::FullKey;
use crate::ids::bare_of;
use crate::snapshot::NodeKey;
use crate::snapshot::RootKey;
use crate::snapshot::Snapshot;
use crate::snapshot::WorkspaceRoot;

verus! {

/// Does some node of the sequence carry this `(name, version)` pair?
pub open spec fn has_node_with_bare(nodes: Seq<NodeKey>, b: BareKey) -> bool {
    exists|i: int| 0 <= i < nodes.len() && bare_of(#[trigger] nodes[i].id) == b
}

/// Is this `(name, version)` pair one of the declared workspace roots?
pub open spec fn root_matches(roots: Seq<RootKey>, b: BareKey) -> bool {
    exists|i: int|
        0 <= i < roots.len() && (#[trigger] roots[i]).name == b.name && roots[i].version
            == b.version
}

/// The first declared workspace root, in declaration order, that has no
/// node in the snapshot; `None` when every root is present.
pub open spec fn first_missing_root(nodes: Seq<NodeKey>, roots: Seq<RootKey>) -> Option<BareKey>
    decreases roots.len(),
{
    if roots.len() == 0 {
        None
    } else {
        let b = BareKey { name: roots[0].name, version: roots[0].version };
        if !has_node_with_bare(nodes, b) {
            Some(b)
        } else {
            first_missing_root(nodes, roots.drop_first())
        }
    }
}

/// The identities of the root nodes: every node, in snapshot order, whose
/// `(name, version)` pair is a declared workspace root.
pub open spec fn root_ids(nodes: Seq<NodeKey>, roots: Seq<RootKey>) -> Seq<FullKey>
    decreases nodes.len(),
{
    if nodes.len() == 0 {
        Seq::empty()
    } else {
        let head: Seq<FullKey> = if root_matches(roots, bare_of(nodes[0].id)) {
            seq![nodes[0].id]
        } else {
            Seq::empty()
        };
        head + root_ids(nodes.drop_first(), roots)
    }
}

/// Does the snapshot hold a node with this `(name, version)` pair?
#[verifier::loop_isolation(false)]
pub fn has_root_node(snap: &Snapshot, name: &String, version: &String) -> (r: bool)
    ensures
        r == has_node_with_bare(snap@.nodes, BareKey { name: name@, version: version@ }),
{
    let ghost b = BareKey { name: name@, version: version@ };
    let n = snap.nodes.len();
    for i in 0..n
        invariant
            forall|j: int| 0 <= j < i ==> bare_of(#[trigger] snap@.nodes[j].id) != b,
    {
        if snap.nodes[i].id.name == *name && snap.nodes[i].id.version == *version {
            proof {
                assert(bare_of(snap@.nodes[i as int].id) == b);
            }
            return true;
        }
        proof {
            assert(snap@.nodes[i as int].id == snap.nodes[i as int]@.id);
        }
    }
    false
}

/// Is this identifier's `(name, version)` pair a declared workspace root?
#[verifier::loop_isolation(false)]
pub fn matches_any_root(roots: &Vec<WorkspaceRoot>, id: &FullId) -> (r: bool)
    ensures
        r == root_matches(roots.deep_view(), bare_of(id@)),
{
    let n = roots.len();
    for i in 0..n
        invariant
            forall|j: int|
                0 <= j < i ==> !((#[trigger] roots.deep_view()[j]).name == id.name@
                    && roots.deep_view()[j].version == id.version@),
    {
        if roots[i].name == id.name && roots[i].version == id.version {
            proof {
                assert(roots.deep_view()[i as int].name == id.name@);
            }
            return true;
        }
    }
    false
}

/// The root resolver: the identity of every workspace root's node in the
/// snapshot, in snapshot order, or the first declared root that has no
/// node.
#[verifier::loop_isolation(false)]
pub fn resolve_roots(snap: &Snapshot) -> (r: Result<Vec<FullId>, DiffError>)
    ensures
        match r {
            Ok(ids) => {
                &&& first_missing_root(snap@.nodes, snap@.roots) is None
                &&& ids.deep_view() == root_ids(snap@.nodes, snap@.roots)
            },
            Err(e) => match first_missing_root(snap@.nodes, snap@.roots) {
                Some(b) => e@ == ErrKey::MissingRoot(b),
                None => false,
            },
        },
{
    let ghost nodesv = snap@.nodes;
    let ghost rootsv = snap@.roots;
    proof {
        assert(rootsv.skip(0) =~= rootsv);
    }
    let nroots = snap.workspace_roots.len();
    for i in 0..nroots
        invariant
            first_missing_root(nodesv, rootsv) == first_missing_root(
                nodesv,
                rootsv.skip(i as int),
            ),
    {
        let wr = &snap.workspace_roots[i];
        let ghost b = BareKey { name: wr.name@, version: wr.version@ };
        proof {
            assert(rootsv.skip(i as int)[0] == rootsv[i as int]);
            assert(rootsv[i as int] == snap.workspace_roots[i as int]@);
        }
        if !has_root_node(snap, &wr.name, &wr.version) {
            return Err(
                DiffError::MissingRoot(
                    BareId { name: wr.name.clone(), version: wr.version.clone() },
                ),
            );
        }
        proof {
            assert(rootsv.skip(i as int).drop_first() =~= rootsv.skip(i as int + 1));
        }
    }
    proof {
        assert(rootsv.skip(nroots as int) =~= Seq::<RootKey>::empty());
    }

    let mut ids: Vec<FullId> = Vec::new();
    proof {
        assert(nodesv.skip(0) =~= nodesv);
        assert(ids.deep_view() + root_ids(nodesv, rootsv) =~= root_ids(nodesv, rootsv));
    }
    let nnodes = snap.nodes.len();
    for k in 0..nnodes
        invariant
            ids.deep_view() + root_ids(nodesv.skip(k as int), rootsv) == root_ids(nodesv, rootsv),
    {
        let ghost mid = ids.deep_view();
        proof {
            assert(nodesv.skip(k as int)[0] == nodesv[k as int]);
            assert(nodesv[k as int] == snap.nodes[k as int]@);
            assert(nodesv.skip(k as int).drop_first() =~= nodesv.skip(k as int + 1));
        }
        if matches_any_root(&snap.workspace_roots, &snap.nodes[k].id) {
            ids.push(snap.nodes[k].id.duplicate());
            proof {
                assert(ids.deep_view() =~= mid.push(nodesv[k as int].id));
                assert((mid.push(nodesv[k as int].id) + root_ids(
                    nodesv.skip(k as int + 1),
                    rootsv,
                )) =~= (mid + root_ids(nodesv.skip(k as int), rootsv)));
            }
        } else {
            proof {
                assert(root_ids(nodesv.skip(k as int), rootsv) =~= root_ids(
                    nodesv.skip(k as int + 1),
                    rootsv,
                ));
            }
        }
    }
    proof {
        assert(nodesv.skip(nnodes as int) =~= Seq::<NodeKey>::empty());
        assert(ids.deep_view() + Seq::<FullKey>::empty() =~= ids.deep_view());
    }
    Ok(ids)
}

/// The local path reference scheme under which a workspace root's
/// location is declared.
pub open spec fn scheme_prefix() -> Seq<char> {
    "path+file:/"@
}

/// A root's location carries the local path reference scheme.
pub open spec fn located(r: RootKey) -> bool {
    scheme_prefix().is_prefix_of(r.url)
}

/// Every declared root's location carries the scheme.
pub open spec fn all_roots_located(roots: Seq<RootKey>) -> bool {
    forall|i: int| 0 <= i < roots.len() ==> located(#[trigger] roots[i])
}

/// The plain filesystem path of a located root: its declared location
/// with the scheme prefix stripped.
pub open spec fn root_path(r: RootKey) -> Seq<char> {
    r.url.skip(scheme_prefix().len() as int)
}

/// The first workspace root entry declared under this name, if any.
pub open spec fn find_root_by_name(roots: Seq<RootKey>, name: Seq<char>) -> Option<RootKey>
    decreases roots.len(),
{
    if roots.len() == 0 {
        None
    } else if roots[0].name == name {
        Some(roots[0])
    } else {
        find_root_by_name(roots.drop_first(), name)
    }
}

/// The path a trail is owed: that of the first workspace root entry
/// declared under the trail's first name, if any entry is.
pub open spec fn head_path(roots: Seq<RootKey>, trail: Seq<BareKey>) -> Option<Seq<char>> {
    match find_root_by_name(roots, trail[0].name) {
        Some(r) => Some(root_path(r)),
        None => None,
    }
}

/// The path resolver, stated over one walk of the trails: each trail's
/// first name is looked up among the workspace roots and the root's path
/// joins `acc` unless already present; a name without a root entry aborts
/// with that name.
pub open spec fn resolve_paths_spec(
    roots: Seq<RootKey>,
    trails: Seq<Seq<BareKey>>,
    acc: Seq<Seq<char>>,
) -> Result<Seq<Seq<char>>, ErrKey>
    decreases trails.len(),
{
    if trails.len() == 0 {
        Ok(acc)
    } else {
        match find_root_by_name(roots, trails[0][0].name) {
            None => Err(ErrKey::MissingPathMapping(trails[0][0].name)),
            Some(r) => {
                let p = root_path(r);
                let acc2: Seq<Seq<char>> = if acc.contains(p) {
                    acc
                } else {
                    acc.push(p)
                };
                resolve_paths_spec(roots, trails.drop_first(), acc2)
            },
        }
    }
}

/// The first workspace root entry under this name, by linear scan.
#[verifier::loop_isolation(false)]
fn lookup_root_by_name<'a>(roots: &'a Vec<WorkspaceRoot>, name: &String) -> (r: Option<
    &'a WorkspaceRoot,
>)
    ensures
        match r {
            Some(wr) => {
                &&& find_root_by_name(roots.deep_view(), name@) == Some(wr@)
                &&& exists|j: int| 0 <= j < roots.deep_view().len() && roots.deep_view()[j] == wr@
            },
            None => find_root_by_name(roots.deep_view(), name@) is None,
        },
{
    let ghost rootsv = roots.deep_view();
    proof {
        assert(rootsv.skip(0) =~= rootsv);
    }
    let n = roots.len();
    for i in 0..n
        invariant
            find_root_by_name(rootsv, name@) == find_root_by_name(
                rootsv.skip(i as int),
                name@,
            ),
    {
        proof {
            assert(rootsv.skip(i as int)[0] == rootsv[i as int]);
            assert(rootsv[i as int] == roots[i as int]@);
        }
        if roots[i].name == *name {
            return Some(&roots[i]);
        }
        proof {
            assert(rootsv.skip(i as int).drop_first() =~= rootsv.skip(i as int + 1));
        }
    }
    proof {
        assert(rootsv.skip(n as int) =~= Seq::<RootKey>::empty());
    }
    None
}

/// Strips the local path reference scheme off a located root's declared
/// location, leaving the plain filesystem path.
fn member_path(url: &String) -> (r: String)
    requires
        scheme_prefix().is_prefix_of(url@),
    ensures
        r@ == url@.skip(scheme_prefix().len() as int),
{
    proof {
        reveal_strlit("path+file:/");
        assert(scheme_prefix().len() == 11);
    }
    let s = url.as_str();
    let n = s.unicode_len();
    let sub = s.substring_char(11, n);
    let r = sub.to_owned();
    proof {
        assert(r@ =~= url@.skip(11));
    }
    r
}

/// Does the list hold this string value?
#[verifier::loop_isolation(false)]
fn contains_string(v: &Vec<String>, x: &String) -> (r: bool)
    ensures
        r == v.deep_view().contains(x@),
{
    let n = v.len();
    for i in 0..n
        invariant
            forall|j: int| 0 <= j < i ==> v.deep_view()[j] != x@,
    {
        if v[i] == *x {
            proof {
                assert(v.deep_view()[i as int] == x@);
            }
            return true;
        }
    }
    false
}

/// The path resolver: the set of filesystem paths of the workspace roots
/// whose names stand first in a trail, in order of first appearance and
/// without repetition, or the first trail head that matches no root.
#[verifier::loop_isolation(false)]
pub fn resolve_paths(snap: &Snapshot, trails: &Vec<Vec<BareId>>) -> (r: Result<
    Vec<String>,
    DiffError,
>)
    requires
        all_roots_located(snap@.roots),
        forall|i: int| 0 <= i < trails.deep_view().len() ==> (#[trigger] trails.deep_view()[i]).len() > 0,
    ensures
        match r {
            Ok(paths) => resolve_paths_spec(snap@.roots, trails.deep_view(), Seq::empty())
                == Ok::<Seq<Seq<char>>, ErrKey>(paths.deep_view()),
            Err(e) => resolve_paths_spec(snap@.roots, trails.deep_view(), Seq::empty())
                == Err::<Seq<Seq<char>>, ErrKey>(e@),
        },
{
    let ghost rootsv = snap@.roots;
    let ghost trailsv = trails.deep_view();
    let mut out: Vec<String> = Vec::new();
    proof {
        assert(trailsv.skip(0) =~= trailsv);
        assert(out.deep_view() =~= Seq::<Seq<char>>::empty());
    }
    let n = trails.len();
    for i in 0..n
        invariant
            resolve_paths_spec(rootsv, trailsv, Seq::empty()) == resolve_paths_spec(
                rootsv,
                trailsv.skip(i as int),
                out.deep_view(),
            ),
    {
        let t = &trails[i];
        proof {
            assert(trailsv[i as int] == trails[i as int].deep_view());
            assert(trailsv.skip(i as int)[0] == trailsv[i as int]);
            assert(trailsv.skip(i as int).drop_first() =~= trailsv.skip(i as int + 1));
        }
        let head = &t[0];
        proof {
            assert(head@ == trailsv[i as int][0]);
        }
        match lookup_root_by_name(&snap.workspace_roots, &head.name) {
            None => {
                return Err(DiffError::MissingPathMapping(head.name.clone()));
            },
            Some(wr) => {
                proof {
                    let j = choose|j: int|
                        0 <= j < rootsv.len() && rootsv[j] == wr@;
                    assert(located(rootsv[j]));
                }
                let p = member_path(&wr.url);
                proof {
                    assert(p@ == root_path(wr@));
                }
                let ghost mid = out.deep_view();
                if !contains_string(&out, &p) {
                    out.push(p);
                    proof {
                        assert(out.deep_view() =~= mid.push(root_path(wr@)));
                    }
                }
            },
        }
    }
    proof {
        assert(trailsv.skip(n as int) =~= Seq::<Seq<BareKey>>::empty());
    }
    Ok(out)
}

} // verus!
