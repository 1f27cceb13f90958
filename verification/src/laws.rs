//! Global laws of the diff operation, proved once and for all inputs.
//!
//! Diffing a snapshot against itself reports nothing.  Force-modifying
//! one otherwise unchanged workspace root reports exactly that root's
//! one-element trail and its path.  A closure that both snapshots hold
//! identically is silent.  Every reported trail starts at a declared
//! workspace root, and the affected paths are exactly the trails' root
//! paths, each once.  On a valid old snapshot the diff cannot fail,
//! whatever the new snapshot and the forced set hold.
//!
//! Acyclicity of a snapshot is stated through a rank: a witness map under
//! which every dependency edge strictly descends.  Reachability is stated
//! through explicit paths.

use vstd::prelude::*;

use crate::diff::diff_spec;
use crate::errors::ErrKey;
use crate::ids::BareKey;
use crate::ids::FullKey;
use crate::ids::bare_of;
use crate::resolve::find_root_by_name;
use crate::resolve::first_missing_root;
use crate::resolve::head_path;
use crate::resolve::root_ids;
use crate::resolve::root_matches;
use crate::resolve::root_path;
use crate::resolve::resolve_paths_spec;
use crate::snapshot::NodeKey;
use crate::snapshot::RootKey;
use crate::snapshot::SnapKey;
use crate::snapshot::lemma_node_map_dom;
use crate::snapshot::node_map;
use crate::snapshot::unique_node_ids;
use crate::trace::emit_missing;
use crate::trace::lemma_trace_list_extends;
use crate::trace::lemma_trace_list_head;
use crate::trace::lemma_visited_push;
use crate::trace::trace_list;
use crate::trace::trace_node;
use crate::trace::visited_ok;

verus! {

/// Every dependency edge lands on a node of the map.
pub open spec fn closed(nodes: Map<FullKey, Seq<FullKey>>) -> bool {
    forall|id: FullKey, j: int|
        #![trigger nodes[id][j]]
        nodes.contains_key(id) && 0 <= j < nodes[id].len() ==> nodes.contains_key(nodes[id][j])
}

/// Under this rank, every dependency edge between nodes of the map
/// strictly descends.
pub open spec fn rank_ok(nodes: Map<FullKey, Seq<FullKey>>, rank: Map<FullKey, nat>) -> bool {
    forall|id: FullKey, j: int|
        #![trigger nodes[id][j]]
        nodes.contains_key(id) && 0 <= j < nodes[id].len() && nodes.contains_key(nodes[id][j])
            ==> rank[nodes[id][j]] < rank[id]
}

/// The dependency relation admits a descending rank: it has no cycle
/// among the map's nodes.
pub open spec fn acyclic(nodes: Map<FullKey, Seq<FullKey>>) -> bool {
    exists|rank: Map<FullKey, nat>| rank_ok(nodes, rank)
}

/// A walk along dependency edges: every step leaves a node of the map
/// through one of its edges.
pub open spec fn is_path(nodes: Map<FullKey, Seq<FullKey>>, p: Seq<FullKey>) -> bool {
    &&& p.len() >= 1
    &&& forall|i: int|
        0 <= i < p.len() - 1 ==> nodes.contains_key(#[trigger] p[i]) && nodes[p[i]].contains(
            p[i + 1],
        )
}

/// Some walk along dependency edges leads from `src` to `dst` (in zero or
/// more steps).
pub open spec fn reaches(nodes: Map<FullKey, Seq<FullKey>>, src: FullKey, dst: FullKey) -> bool {
    exists|p: Seq<FullKey>| is_path(nodes, p) && p.first() == src && p.last() == dst
}

/// Every node reaches itself.
pub proof fn lemma_reaches_self(nodes: Map<FullKey, Seq<FullKey>>, id: FullKey)
    ensures
        reaches(nodes, id, id),
{
    let p = seq![id];
    assert(is_path(nodes, p) && p.first() == id && p.last() == id);
}

/// Whatever a dependency reaches, the node itself reaches.
pub proof fn lemma_reaches_step(
    nodes: Map<FullKey, Seq<FullKey>>,
    id: FullKey,
    dep: FullKey,
    dst: FullKey,
)
    requires
        nodes.contains_key(id),
        nodes[id].contains(dep),
        reaches(nodes, dep, dst),
    ensures
        reaches(nodes, id, dst),
{
    let p = choose|p: Seq<FullKey>| is_path(nodes, p) && p.first() == dep && p.last() == dst;
    let q = seq![id] + p;
    assert forall|i: int| 0 <= i < q.len() - 1 implies nodes.contains_key(#[trigger] q[i])
        && nodes[q[i]].contains(q[i + 1]) by {
        if i == 0 {
            assert(q[0] == id);
            assert(q[1] == p[0]);
        } else {
            assert(q[i] == p[i - 1]);
            assert(q[i + 1] == p[i]);
            assert(nodes.contains_key(p[i - 1]) && nodes[p[i - 1]].contains(p[i]));
        }
    }
    assert(is_path(nodes, q) && q.first() == id && q.last() == dst);
}

/// Comparing an edge list against one that holds all its edges emits no
/// trail.
pub proof fn lemma_emit_missing_none(src: Seq<FullKey>, other: Seq<FullKey>, trail: Seq<BareKey>)
    requires
        forall|j: int| 0 <= j < src.len() ==> other.contains(#[trigger] src[j]),
    ensures
        emit_missing(src, other, trail) == Seq::<Seq<BareKey>>::empty(),
    decreases src.len(),
{
    if src.len() == 0 {
    } else {
        assert(other.contains(src[0]));
        assert forall|j: int| 0 <= j < src.drop_first().len() implies other.contains(
            #[trigger] src.drop_first()[j],
        ) by {
            assert(src.drop_first()[j] == src[j + 1]);
        }
        lemma_emit_missing_none(src.drop_first(), other, trail);
        assert(emit_missing(src, other, trail) =~= Seq::<Seq<BareKey>>::empty());
    }
}

/// A dependency of a node is reachable from it.
pub proof fn lemma_reaches_dep(nodes: Map<FullKey, Seq<FullKey>>, id: FullKey, dep: FullKey)
    requires
        nodes.contains_key(id),
        nodes[id].contains(dep),
    ensures
        reaches(nodes, id, dep),
{
    lemma_reaches_self(nodes, dep);
    lemma_reaches_step(nodes, id, dep, dep);
}

/// In an edge-closed map, whatever a node reaches is a node of the map.
pub proof fn lemma_reachable_in_dom(
    nodes: Map<FullKey, Seq<FullKey>>,
    src: FullKey,
    dst: FullKey,
)
    requires
        closed(nodes),
        nodes.contains_key(src),
        reaches(nodes, src, dst),
    ensures
        nodes.contains_key(dst),
{
    let p = choose|p: Seq<FullKey>| is_path(nodes, p) && p.first() == src && p.last() == dst;
    if p.len() == 1 {
        assert(dst == src);
    } else {
        let last = p.len() - 1;
        assert(nodes.contains_key(p[last - 1]) && nodes[p[last - 1]].contains(p[last]));
        let j = choose|j: int|
            0 <= j < nodes[p[last - 1]].len() && #[trigger] nodes[p[last - 1]][j] == dst;
        assert(nodes[p[last - 1]][j] == dst);
    }
}

/// **Identical closures are silent.**  A walk from a node whose whole
/// reachable closure in the old snapshot is present in the new snapshot
/// with the same edges, and free of force-modified pairs, emits no trail:
/// an identical subtree under both snapshots contributes nothing.
pub proof fn lemma_trace_node_unchanged(
    old: Map<FullKey, Seq<FullKey>>,
    new: Map<FullKey, Seq<FullKey>>,
    forced: Seq<BareKey>,
    rank: Map<FullKey, nat>,
    id: FullKey,
    trail: Seq<BareKey>,
    visited: Seq<FullKey>,
)
    requires
        old.dom().finite(),
        rank_ok(old, rank),
        visited_ok(old, visited),
        old.contains_key(id),
        forall|i: int| 0 <= i < visited.len() ==> rank[#[trigger] visited[i]] > rank[id],
        forall|x: FullKey|
            #[trigger] reaches(old, id, x) ==> old.contains_key(x) && new.contains_key(x)
                && new[x] == old[x] && !forced.contains(bare_of(x)),
    ensures
        trace_node(old, new, forced, id, trail, visited) == Ok::<Seq<Seq<BareKey>>, ErrKey>(
            Seq::empty(),
        ),
    decreases rank[id], 1int, 0int,
{
    assert(!visited.contains(id)) by {
        if visited.contains(id) {
            let i = choose|i: int| 0 <= i < visited.len() && visited[i] == id;
            assert(rank[visited[i]] > rank[id]);
        }
    }
    lemma_reaches_self(old, id);
    assert(!forced.contains(bare_of(id)));
    assert(new.contains_key(id) && new[id] == old[id]);
    let t = trail.push(bare_of(id));
    assert forall|j: int| 0 <= j < old[id].len() implies old[id].contains(
        #[trigger] old[id][j],
    ) by {}
    lemma_emit_missing_none(old[id], new[id], t);
    lemma_emit_missing_none(new[id], old[id], t);
    lemma_visited_push(old, visited, id);
    assert forall|j: int| 0 <= j < old[id].len() implies old.contains_key(#[trigger] old[id][j])
        && rank[old[id][j]] < rank[id] by {
        lemma_reaches_dep(old, id, old[id][j]);
    }
    assert forall|i: int| 0 <= i < visited.push(id).len() implies rank[#[trigger] visited.push(
        id,
    )[i]] >= rank[id] by {
        if i < visited.len() {
            assert(visited.push(id)[i] == visited[i]);
        } else {
            assert(visited.push(id)[i] == id);
        }
    }
    assert forall|j: int, x: FullKey|
        0 <= j < old[id].len() && #[trigger] reaches(old, old[id][j], x) implies old.contains_key(
        x,
    ) && new.contains_key(x) && new[x] == old[x] && !forced.contains(bare_of(x)) by {
        assert(old[id].contains(old[id][j]));
        lemma_reaches_step(old, id, old[id][j], x);
    }
    lemma_trace_list_unchanged(old, new, forced, rank, rank[id], old[id], t, visited.push(id));
}

/// The walks from sibling nodes of rank below `bound` whose closures are
/// identical in both snapshots and free of force-modified pairs emit
/// nothing.
pub proof fn lemma_trace_list_unchanged(
    old: Map<FullKey, Seq<FullKey>>,
    new: Map<FullKey, Seq<FullKey>>,
    forced: Seq<BareKey>,
    rank: Map<FullKey, nat>,
    bound: nat,
    ids: Seq<FullKey>,
    trail: Seq<BareKey>,
    visited: Seq<FullKey>,
)
    requires
        old.dom().finite(),
        rank_ok(old, rank),
        visited_ok(old, visited),
        forall|j: int|
            0 <= j < ids.len() ==> old.contains_key(#[trigger] ids[j]) && rank[ids[j]] < bound,
        forall|i: int| 0 <= i < visited.len() ==> rank[#[trigger] visited[i]] >= bound,
        forall|j: int, x: FullKey|
            0 <= j < ids.len() && #[trigger] reaches(old, ids[j], x) ==> old.contains_key(x)
                && new.contains_key(x) && new[x] == old[x] && !forced.contains(bare_of(x)),
    ensures
        trace_list(old, new, forced, ids, trail, visited) == Ok::<Seq<Seq<BareKey>>, ErrKey>(
            Seq::empty(),
        ),
    decreases bound, 0int, ids.len(),
{
    if ids.len() == 0 {
    } else {
        assert forall|i: int| 0 <= i < visited.len() implies rank[#[trigger] visited[i]]
            > rank[ids[0]] by {}
        lemma_trace_node_unchanged(old, new, forced, rank, ids[0], trail, visited);
        let rest = ids.drop_first();
        assert forall|j: int| 0 <= j < rest.len() implies old.contains_key(#[trigger] rest[j])
            && rank[rest[j]] < bound by {
            assert(rest[j] == ids[j + 1]);
        }
        assert forall|j: int, x: FullKey|
            0 <= j < rest.len() && #[trigger] reaches(old, rest[j], x) implies old.contains_key(x)
                && new.contains_key(x) && new[x] == old[x] && !forced.contains(bare_of(x)) by {
            assert(rest[j] == ids[j + 1]);
        }
        lemma_trace_list_unchanged(old, new, forced, rank, bound, rest, trail, visited);
        assert((Seq::<Seq<BareKey>>::empty() + Seq::<Seq<BareKey>>::empty()) =~= Seq::<
            Seq<BareKey>,
        >::empty());
    }
}

/// Every resolved root identity is the identity of some node.
pub proof fn lemma_root_ids_from_nodes(nodes: Seq<NodeKey>, roots: Seq<RootKey>)
    ensures
        forall|j: int|
            0 <= j < root_ids(nodes, roots).len() ==> exists|i: int|
                0 <= i < nodes.len() && #[trigger] root_ids(nodes, roots)[j] == nodes[i].id,
    decreases nodes.len(),
{
    if nodes.len() == 0 {
    } else {
        let rest = nodes.drop_first();
        lemma_root_ids_from_nodes(rest, roots);
        assert forall|j: int| 0 <= j < root_ids(nodes, roots).len() implies exists|i: int|
            0 <= i < nodes.len() && #[trigger] root_ids(nodes, roots)[j] == nodes[i].id by {
            let whole = root_ids(nodes, roots);
            let tail = root_ids(rest, roots);
            let headlen = whole.len() - tail.len();
            if j < headlen {
                assert(whole[j] == nodes[0].id);
            } else {
                assert(whole[j] == tail[j - headlen]);
                let i = choose|i: int| 0 <= i < rest.len() && tail[j - headlen] == rest[i].id;
                assert(rest[i] == nodes[i + 1]);
                assert(whole[j] == nodes[i + 1].id);
            }
        }
    }
}

/// Some bound strictly exceeds the rank of every listed identity.
pub proof fn lemma_rank_bound(rank: Map<FullKey, nat>, ids: Seq<FullKey>) -> (bound: nat)
    ensures
        forall|j: int| 0 <= j < ids.len() ==> rank[#[trigger] ids[j]] < bound,
    decreases ids.len(),
{
    if ids.len() == 0 {
        1
    } else {
        let b1 = lemma_rank_bound(rank, ids.drop_last());
        let b2 = rank[ids.last()] + 1;
        let bound: nat = if b1 >= b2 {
            b1
        } else {
            b2
        };
        assert forall|j: int| 0 <= j < ids.len() implies rank[#[trigger] ids[j]] < bound by {
            if j < ids.len() - 1 {
                assert(ids[j] == ids.drop_last()[j]);
            }
        }
        bound
    }
}

/// The one-element trails that a walk over these sibling nodes owes to a
/// single force-modified pair: one per node carrying the pair, in order.
pub open spec fn emit_forced(ids: Seq<FullKey>, k: BareKey) -> Seq<Seq<BareKey>>
    decreases ids.len(),
{
    if ids.len() == 0 {
        Seq::empty()
    } else {
        let head: Seq<Seq<BareKey>> = if bare_of(ids[0]) == k {
            seq![seq![k]]
        } else {
            Seq::empty()
        };
        head + emit_forced(ids.drop_first(), k)
    }
}

/// No listed identity carries the pair: nothing is owed.
pub proof fn lemma_emit_forced_none(ids: Seq<FullKey>, k: BareKey)
    requires
        forall|j: int| 0 <= j < ids.len() ==> bare_of(#[trigger] ids[j]) != k,
    ensures
        emit_forced(ids, k) == Seq::<Seq<BareKey>>::empty(),
    decreases ids.len(),
{
    if ids.len() == 0 {
    } else {
        assert forall|j: int| 0 <= j < ids.drop_first().len() implies bare_of(
            #[trigger] ids.drop_first()[j],
        ) != k by {
            assert(ids.drop_first()[j] == ids[j + 1]);
        }
        lemma_emit_forced_none(ids.drop_first(), k);
        assert(emit_forced(ids, k) =~= Seq::<Seq<BareKey>>::empty());
    }
}

/// Exactly one listed identity carries the pair: exactly its one trail is
/// owed.
pub proof fn lemma_emit_forced_single(ids: Seq<FullKey>, k: BareKey, p: int)
    requires
        0 <= p < ids.len(),
        bare_of(ids[p]) == k,
        forall|j: int| 0 <= j < ids.len() && j != p ==> bare_of(#[trigger] ids[j]) != k,
    ensures
        emit_forced(ids, k) == seq![seq![k]],
    decreases ids.len(),
{
    let rest = ids.drop_first();
    if p == 0 {
        assert forall|j: int| 0 <= j < rest.len() implies bare_of(#[trigger] rest[j]) != k by {
            assert(rest[j] == ids[j + 1]);
        }
        lemma_emit_forced_none(rest, k);
        assert(emit_forced(ids, k) =~= seq![seq![k]]);
    } else {
        assert forall|j: int| 0 <= j < rest.len() && j != p - 1 implies bare_of(
            #[trigger] rest[j],
        ) != k by {
            assert(rest[j] == ids[j + 1]);
        }
        assert(rest[p - 1] == ids[p]);
        lemma_emit_forced_single(rest, k, p - 1);
        assert(bare_of(ids[0]) != k);
        assert(emit_forced(ids, k) =~= seq![seq![k]]);
    }
}

/// A walk over sibling nodes of an acyclic snapshot, compared against the
/// same snapshot with a single force-modified pair that none of the
/// pair-free siblings reaches, emits exactly the owed one-element trails.
pub proof fn lemma_trace_list_forced(
    m: Map<FullKey, Seq<FullKey>>,
    rank: Map<FullKey, nat>,
    k: BareKey,
    ids: Seq<FullKey>,
)
    requires
        m.dom().finite(),
        closed(m),
        rank_ok(m, rank),
        forall|j: int| 0 <= j < ids.len() ==> m.contains_key(#[trigger] ids[j]),
        forall|j: int, x: FullKey|
            0 <= j < ids.len() && bare_of(#[trigger] ids[j]) != k && #[trigger] reaches(
                m,
                ids[j],
                x,
            ) ==> bare_of(x) != k,
    ensures
        trace_list(m, m, seq![k], ids, Seq::empty(), Seq::empty()) == Ok::<
            Seq<Seq<BareKey>>,
            ErrKey,
        >(emit_forced(ids, k)),
    decreases ids.len(),
{
    let forced = seq![k];
    assert(forced[0] == k);
    assert(visited_ok(m, Seq::<FullKey>::empty()));
    if ids.len() == 0 {
    } else {
        let id = ids[0];
        let head: Seq<Seq<BareKey>>;
        if bare_of(id) == k {
            assert(forced.contains(bare_of(id)));
            let t = Seq::<BareKey>::empty().push(bare_of(id));
            assert(t =~= seq![k]);
            assert(trace_node(m, m, forced, id, Seq::empty(), Seq::empty()) == Ok::<
                Seq<Seq<BareKey>>,
                ErrKey,
            >(seq![t]));
            head = seq![seq![k]];
            assert(seq![t] =~= head);
        } else {
            assert forall|x: FullKey| #[trigger] reaches(m, id, x) implies m.contains_key(x)
                && !forced.contains(bare_of(x)) by {
                lemma_reachable_in_dom(m, id, x);
                assert(bare_of(x) != k);
                if forced.contains(bare_of(x)) {
                    let w = choose|w: int| 0 <= w < forced.len() && forced[w] == bare_of(x);
                    assert(forced[w] == k);
                }
            }
            lemma_trace_node_unchanged(m, m, forced, rank, id, Seq::empty(), Seq::empty());
            head = Seq::empty();
        }
        let rest = ids.drop_first();
        assert forall|j: int| 0 <= j < rest.len() implies m.contains_key(#[trigger] rest[j]) by {
            assert(rest[j] == ids[j + 1]);
        }
        assert forall|j: int, x: FullKey|
            0 <= j < rest.len() && bare_of(#[trigger] rest[j]) != k && #[trigger] reaches(
                m,
                rest[j],
                x,
            ) implies bare_of(x) != k by {
            assert(rest[j] == ids[j + 1]);
        }
        lemma_trace_list_forced(m, rank, k, rest);
        assert(emit_forced(ids, k) == head + emit_forced(rest, k));
    }
}

/// Every resolved root identity matches some declared workspace root by
/// `(name, version)`.
pub proof fn lemma_root_ids_match(nodes: Seq<NodeKey>, roots: Seq<RootKey>)
    ensures
        forall|j: int|
            0 <= j < root_ids(nodes, roots).len() ==> root_matches(
                roots,
                bare_of(#[trigger] root_ids(nodes, roots)[j]),
            ),
    decreases nodes.len(),
{
    if nodes.len() == 0 {
    } else {
        let rest = nodes.drop_first();
        lemma_root_ids_match(rest, roots);
        assert forall|j: int| 0 <= j < root_ids(nodes, roots).len() implies root_matches(
            roots,
            bare_of(#[trigger] root_ids(nodes, roots)[j]),
        ) by {
            let whole = root_ids(nodes, roots);
            let tail = root_ids(rest, roots);
            let headlen = whole.len() - tail.len();
            if j < headlen {
                assert(whole[j] == nodes[0].id);
            } else {
                assert(whole[j] == tail[j - headlen]);
            }
        }
    }
}

/// A name carried by some workspace root entry is found by the by-name
/// lookup, which answers with an entry of that name.
pub proof fn lemma_find_root_named(roots: Seq<RootKey>, name: Seq<char>)
    requires
        exists|i: int| 0 <= i < roots.len() && (#[trigger] roots[i]).name == name,
    ensures
        find_root_by_name(roots, name) is Some,
        find_root_by_name(roots, name)->Some_0.name == name,
    decreases roots.len(),
{
    if roots.len() == 0 {
    } else if roots[0].name == name {
    } else {
        let i = choose|i: int| 0 <= i < roots.len() && (#[trigger] roots[i]).name == name;
        assert(roots.drop_first()[i - 1] == roots[i]);
        lemma_find_root_named(roots.drop_first(), name);
    }
}

/// **Identity law.**  Diffing a well-formed, edge-closed, acyclic
/// snapshot against itself, with nothing force-modified, succeeds and
/// reports no trails and no affected paths.
pub proof fn lemma_diff_identity(s: SnapKey)
    requires
        unique_node_ids(s.nodes),
        closed(node_map(s.nodes)),
        acyclic(node_map(s.nodes)),
        first_missing_root(s.nodes, s.roots) is None,
    ensures
        diff_spec(s, s, Seq::empty()) == Ok::<(Seq<Seq<BareKey>>, Seq<Seq<char>>), ErrKey>(
            (Seq::empty(), Seq::empty()),
        ),
{
    let m = node_map(s.nodes);
    lemma_node_map_dom(s.nodes);
    let rank = choose|rank: Map<FullKey, nat>| rank_ok(m, rank);
    let rids = root_ids(s.nodes, s.roots);
    lemma_root_ids_from_nodes(s.nodes, s.roots);
    assert forall|j: int| 0 <= j < rids.len() implies m.contains_key(#[trigger] rids[j]) by {
        let i = choose|i: int| 0 <= i < s.nodes.len() && rids[j] == s.nodes[i].id;
        assert(s.nodes[i].id == rids[j]);
    }
    let bound = lemma_rank_bound(rank, rids);
    assert(visited_ok(m, Seq::<FullKey>::empty()));
    assert forall|j: int, x: FullKey|
        0 <= j < rids.len() && #[trigger] reaches(m, rids[j], x) implies m.contains_key(x)
            && !Seq::<BareKey>::empty().contains(bare_of(x)) by {
        lemma_reachable_in_dom(m, rids[j], x);
    }
    lemma_trace_list_unchanged(m, m, Seq::empty(), rank, bound, rids, Seq::empty(), Seq::empty());
}

/// **Forced-root law.**  Force-modifying one pair that names a workspace
/// root of a well-formed, edge-closed, acyclic snapshot — a pair exactly
/// one node carries, and one that no pair-free root's closure reaches —
/// and diffing the snapshot against itself, succeeds and reports exactly
/// the one-element trail of that root, and exactly the path of the first
/// workspace root entry declared under its name.
pub proof fn lemma_diff_forced_root(s: SnapKey, k: BareKey)
    requires
        unique_node_ids(s.nodes),
        closed(node_map(s.nodes)),
        acyclic(node_map(s.nodes)),
        first_missing_root(s.nodes, s.roots) is None,
        exists|p: int|
            0 <= p < root_ids(s.nodes, s.roots).len() && bare_of(
                #[trigger] root_ids(s.nodes, s.roots)[p],
            ) == k,
        forall|p: int, q: int|
            0 <= p < root_ids(s.nodes, s.roots).len() && 0 <= q < root_ids(s.nodes, s.roots).len()
                && bare_of(#[trigger] root_ids(s.nodes, s.roots)[p]) == k && bare_of(
                #[trigger] root_ids(s.nodes, s.roots)[q],
            ) == k ==> p == q,
        forall|j: int, x: FullKey|
            0 <= j < root_ids(s.nodes, s.roots).len() && bare_of(
                #[trigger] root_ids(s.nodes, s.roots)[j],
            ) != k && #[trigger] reaches(node_map(s.nodes), root_ids(s.nodes, s.roots)[j], x)
                ==> bare_of(x) != k,
    ensures
        find_root_by_name(s.roots, k.name) is Some,
        diff_spec(s, s, seq![k]) == Ok::<(Seq<Seq<BareKey>>, Seq<Seq<char>>), ErrKey>(
            (seq![seq![k]], seq![root_path(find_root_by_name(s.roots, k.name)->Some_0)]),
        ),
{
    let m = node_map(s.nodes);
    lemma_node_map_dom(s.nodes);
    let rank = choose|rank: Map<FullKey, nat>| rank_ok(m, rank);
    let rids = root_ids(s.nodes, s.roots);
    lemma_root_ids_from_nodes(s.nodes, s.roots);
    assert forall|j: int| 0 <= j < rids.len() implies m.contains_key(#[trigger] rids[j]) by {
        let i = choose|i: int| 0 <= i < s.nodes.len() && rids[j] == s.nodes[i].id;
        assert(s.nodes[i].id == rids[j]);
    }
    lemma_trace_list_forced(m, rank, k, rids);
    let p = choose|p: int| 0 <= p < rids.len() && bare_of(#[trigger] rids[p]) == k;
    lemma_emit_forced_single(rids, k, p);

    lemma_root_ids_match(s.nodes, s.roots);
    assert(root_matches(s.roots, k));
    let i = choose|i: int|
        0 <= i < s.roots.len() && (#[trigger] s.roots[i]).name == k.name && s.roots[i].version
            == k.version;
    assert(exists|i: int| 0 <= i < s.roots.len() && (#[trigger] s.roots[i]).name == k.name);
    lemma_find_root_named(s.roots, k.name);

    let trails: Seq<Seq<BareKey>> = seq![seq![k]];
    let r0 = find_root_by_name(s.roots, k.name)->Some_0;
    assert(trails[0][0] == k);
    assert(!Seq::<Seq<char>>::empty().contains(root_path(r0)));
    assert(trails.drop_first() =~= Seq::<Seq<BareKey>>::empty());
    assert(resolve_paths_spec(s.roots, trails.drop_first(), seq![root_path(r0)]) == Ok::<
        Seq<Seq<char>>,
        ErrKey,
    >(seq![root_path(r0)]));
    assert(Seq::<Seq<char>>::empty().push(root_path(r0)) =~= seq![root_path(r0)]);
    assert(resolve_paths_spec(s.roots, trails, Seq::empty()) == Ok::<Seq<Seq<char>>, ErrKey>(
        seq![root_path(r0)],
    ));
}

/// What the path resolver's answer adds to the accumulator: exactly the
/// paths owed to the trails, each once; and it answers at all only where
/// every trail is owed a path.
pub proof fn lemma_resolve_paths_set(
    roots: Seq<RootKey>,
    trails: Seq<Seq<BareKey>>,
    acc: Seq<Seq<char>>,
)
    requires
        acc.no_duplicates(),
    ensures
        resolve_paths_spec(roots, trails, acc) matches Ok(ps) ==> {
            &&& ps.no_duplicates()
            &&& forall|j: int|
                0 <= j < trails.len() ==> head_path(roots, #[trigger] trails[j]) is Some
            &&& forall|p: Seq<char>|
                #[trigger] ps.contains(p) <==> (acc.contains(p) || exists|j: int|
                    0 <= j < trails.len() && head_path(roots, #[trigger] trails[j]) == Some(p))
        },
    decreases trails.len(),
{
    if trails.len() == 0 {
        if resolve_paths_spec(roots, trails, acc) is Ok {
            assert forall|p: Seq<char>| #[trigger] acc.contains(p) implies (acc.contains(p)
                || exists|j: int|
                0 <= j < trails.len() && head_path(roots, #[trigger] trails[j]) == Some(p)) by {}
        }
    } else {
        match find_root_by_name(roots, trails[0][0].name) {
            None => {},
            Some(r) => {
                let p0 = root_path(r);
                let acc2: Seq<Seq<char>> = if acc.contains(p0) {
                    acc
                } else {
                    acc.push(p0)
                };
                assert(acc2.no_duplicates()) by {
                    if !acc.contains(p0) {
                        assert forall|i: int, j2: int| 0 <= i < j2 < acc2.len() implies acc2[i]
                            != acc2[j2] by {
                            if j2 == acc2.len() - 1 {
                                assert(acc2[i] == acc[i]);
                                assert(acc.contains(acc[i]));
                            }
                        }
                    }
                }
                assert forall|p: Seq<char>| #[trigger] acc2.contains(p) implies (acc.contains(p)
                    || p == p0) by {
                    if !acc.contains(p0) {
                        let i = choose|i: int| 0 <= i < acc2.len() && acc2[i] == p;
                        if i < acc.len() {
                            assert(acc[i] == p);
                        }
                    }
                }
                assert(acc2.contains(p0)) by {
                    if !acc.contains(p0) {
                        assert(acc2[acc2.len() - 1] == p0);
                    }
                }
                assert forall|p: Seq<char>| acc.contains(p) implies #[trigger] acc2.contains(
                    p,
                ) by {
                    if !acc.contains(p0) {
                        let i = choose|i: int| 0 <= i < acc.len() && acc[i] == p;
                        assert(acc2[i] == p);
                    }
                }
                let rest = trails.drop_first();
                lemma_resolve_paths_set(roots, rest, acc2);
                if resolve_paths_spec(roots, trails, acc) is Ok {
                    let ps = resolve_paths_spec(roots, trails, acc)->Ok_0;
                    assert forall|j: int| 0 <= j < trails.len() implies head_path(
                        roots,
                        #[trigger] trails[j],
                    ) is Some by {
                        if j > 0 {
                            assert(rest[j - 1] == trails[j]);
                        }
                    }
                    assert forall|p: Seq<char>| #[trigger] ps.contains(p) implies (acc.contains(p)
                        || exists|j: int|
                        0 <= j < trails.len() && head_path(roots, #[trigger] trails[j]) == Some(
                            p,
                        )) by {
                        if acc2.contains(p) && !acc.contains(p) {
                            assert(head_path(roots, trails[0]) == Some(p));
                        } else if !acc2.contains(p) {
                            let j = choose|j: int|
                                0 <= j < rest.len() && head_path(roots, #[trigger] rest[j])
                                    == Some(p);
                            assert(trails[j + 1] == rest[j]);
                            assert(head_path(roots, trails[j + 1]) == Some(p));
                        }
                    }
                    assert forall|p: Seq<char>|
                        (acc.contains(p) || exists|j: int|
                            0 <= j < trails.len() && head_path(roots, #[trigger] trails[j])
                                == Some(p)) implies #[trigger] ps.contains(p) by {
                        if acc.contains(p) {
                            assert(acc2.contains(p));
                        } else {
                            let j = choose|j: int|
                                0 <= j < trails.len() && head_path(roots, #[trigger] trails[j])
                                    == Some(p);
                            if j == 0 {
                                assert(p == p0);
                                assert(acc2.contains(p));
                            } else {
                                assert(rest[j - 1] == trails[j]);
                            }
                        }
                    }
                }
            },
        }
    }
}

/// A walk from a node of a well-formed old snapshot cannot fail,
/// whatever the new snapshot and the forced set hold.
pub proof fn lemma_trace_node_total(
    old: Map<FullKey, Seq<FullKey>>,
    new: Map<FullKey, Seq<FullKey>>,
    forced: Seq<BareKey>,
    rank: Map<FullKey, nat>,
    id: FullKey,
    trail: Seq<BareKey>,
    visited: Seq<FullKey>,
)
    requires
        old.dom().finite(),
        closed(old),
        rank_ok(old, rank),
        visited_ok(old, visited),
        old.contains_key(id),
        forall|i: int| 0 <= i < visited.len() ==> rank[#[trigger] visited[i]] > rank[id],
    ensures
        trace_node(old, new, forced, id, trail, visited) is Ok,
    decreases rank[id], 1int, 0int,
{
    assert(!visited.contains(id)) by {
        if visited.contains(id) {
            let i = choose|i: int| 0 <= i < visited.len() && visited[i] == id;
            assert(rank[visited[i]] > rank[id]);
        }
    }
    let t = trail.push(bare_of(id));
    if forced.contains(bare_of(id)) || !new.contains_key(id) {
    } else {
        let direct = emit_missing(old[id], new[id], t) + emit_missing(new[id], old[id], t);
        if direct.len() > 0 {
        } else {
            lemma_visited_push(old, visited, id);
            assert forall|j: int| 0 <= j < old[id].len() implies old.contains_key(
                #[trigger] old[id][j],
            ) && rank[old[id][j]] < rank[id] by {}
            assert forall|i: int| 0 <= i < visited.push(id).len() implies rank[#[trigger] visited.push(
                id,
            )[i]] >= rank[id] by {
                if i < visited.len() {
                    assert(visited.push(id)[i] == visited[i]);
                } else {
                    assert(visited.push(id)[i] == id);
                }
            }
            lemma_trace_list_total(old, new, forced, rank, rank[id], old[id], t, visited.push(id));
        }
    }
}

/// The walks from sibling nodes of a well-formed old snapshot cannot
/// fail, whatever the new snapshot and the forced set hold.
pub proof fn lemma_trace_list_total(
    old: Map<FullKey, Seq<FullKey>>,
    new: Map<FullKey, Seq<FullKey>>,
    forced: Seq<BareKey>,
    rank: Map<FullKey, nat>,
    bound: nat,
    ids: Seq<FullKey>,
    trail: Seq<BareKey>,
    visited: Seq<FullKey>,
)
    requires
        old.dom().finite(),
        closed(old),
        rank_ok(old, rank),
        visited_ok(old, visited),
        forall|j: int|
            0 <= j < ids.len() ==> old.contains_key(#[trigger] ids[j]) && rank[ids[j]] < bound,
        forall|i: int| 0 <= i < visited.len() ==> rank[#[trigger] visited[i]] >= bound,
    ensures
        trace_list(old, new, forced, ids, trail, visited) is Ok,
    decreases bound, 0int, ids.len(),
{
    if ids.len() == 0 {
    } else {
        assert forall|i: int| 0 <= i < visited.len() implies rank[#[trigger] visited[i]]
            > rank[ids[0]] by {}
        lemma_trace_node_total(old, new, forced, rank, ids[0], trail, visited);
        let rest = ids.drop_first();
        assert forall|j: int| 0 <= j < rest.len() implies old.contains_key(#[trigger] rest[j])
            && rank[rest[j]] < bound by {
            assert(rest[j] == ids[j + 1]);
        }
        lemma_trace_list_total(old, new, forced, rank, bound, rest, trail, visited);
    }
}

/// Path resolution cannot fail where every trail is owed a path.
pub proof fn lemma_resolve_paths_total(
    roots: Seq<RootKey>,
    trails: Seq<Seq<BareKey>>,
    acc: Seq<Seq<char>>,
)
    requires
        forall|j: int| 0 <= j < trails.len() ==> head_path(roots, #[trigger] trails[j]) is Some,
    ensures
        resolve_paths_spec(roots, trails, acc) is Ok,
    decreases trails.len(),
{
    if trails.len() == 0 {
    } else {
        assert(head_path(roots, trails[0]) is Some);
        let rest = trails.drop_first();
        assert forall|j: int| 0 <= j < rest.len() implies head_path(
            roots,
            #[trigger] rest[j],
        ) is Some by {
            assert(rest[j] == trails[j + 1]);
        }
        match find_root_by_name(roots, trails[0][0].name) {
            None => {},
            Some(r) => {
                let p0 = root_path(r);
                let acc2: Seq<Seq<char>> = if acc.contains(p0) {
                    acc
                } else {
                    acc.push(p0)
                };
                lemma_resolve_paths_total(roots, rest, acc2);
            },
        }
    }
}

/// **Success is owed on every valid old snapshot.**  Where the old
/// snapshot is well formed, its edges all land on its own nodes, its
/// dependency relation is acyclic and every declared workspace root has a
/// node, the diff succeeds — whatever the new snapshot and the forced set
/// hold.  The four failures can therefore arise only from an old snapshot
/// that breaks one of these conditions.
pub proof fn lemma_diff_success(old: SnapKey, new: SnapKey, forced: Seq<BareKey>)
    requires
        unique_node_ids(old.nodes),
        closed(node_map(old.nodes)),
        acyclic(node_map(old.nodes)),
        first_missing_root(old.nodes, old.roots) is None,
    ensures
        diff_spec(old, new, forced) is Ok,
{
    let m = node_map(old.nodes);
    let nm = node_map(new.nodes);
    lemma_node_map_dom(old.nodes);
    let rank = choose|rank: Map<FullKey, nat>| rank_ok(m, rank);
    let rids = root_ids(old.nodes, old.roots);
    lemma_root_ids_from_nodes(old.nodes, old.roots);
    assert forall|j: int| 0 <= j < rids.len() implies m.contains_key(#[trigger] rids[j]) by {
        let i = choose|i: int| 0 <= i < old.nodes.len() && rids[j] == old.nodes[i].id;
        assert(old.nodes[i].id == rids[j]);
    }
    let bound = lemma_rank_bound(rank, rids);
    assert(visited_ok(m, Seq::<FullKey>::empty()));
    lemma_trace_list_total(m, nm, forced, rank, bound, rids, Seq::empty(), Seq::empty());
    let trails = trace_list(m, nm, forced, rids, Seq::empty(), Seq::empty())->Ok_0;
    lemma_trace_list_head(m, nm, forced, rids, Seq::empty(), Seq::empty());
    lemma_root_ids_match(old.nodes, old.roots);
    assert forall|j: int| 0 <= j < trails.len() implies head_path(
        old.roots,
        #[trigger] trails[j],
    ) is Some by {
        let w = choose|w: int| 0 <= w < rids.len() && trails[j][0] == bare_of(rids[w]);
        assert(root_matches(old.roots, bare_of(rids[w])));
        let i = choose|i: int|
            0 <= i < old.roots.len() && (#[trigger] old.roots[i]).name == trails[j][0].name
                && old.roots[i].version == trails[j][0].version;
        assert(exists|i: int|
            0 <= i < old.roots.len() && (#[trigger] old.roots[i]).name == trails[j][0].name);
        lemma_find_root_named(old.roots, trails[j][0].name);
    }
    lemma_resolve_paths_total(old.roots, trails, Seq::empty());
}

/// **Trails start at workspace roots.**  Every trail a successful diff
/// reports is non-empty, and its first element is the `(name, version)`
/// pair of a declared workspace root of the old snapshot.
pub proof fn lemma_trails_start_at_roots(old: SnapKey, new: SnapKey, forced: Seq<BareKey>)
    ensures
        diff_spec(old, new, forced) matches Ok(r) ==> forall|j: int|
            0 <= j < r.0.len() ==> (#[trigger] r.0[j]).len() > 0 && root_matches(
                old.roots,
                r.0[j][0],
            ),
{
    if diff_spec(old, new, forced) is Ok {
        let m = node_map(old.nodes);
        let nm = node_map(new.nodes);
        let rids = root_ids(old.nodes, old.roots);
        let trails = diff_spec(old, new, forced)->Ok_0.0;
        lemma_node_map_dom(old.nodes);
        assert(visited_ok(m, Seq::<FullKey>::empty()));
        lemma_trace_list_extends(m, nm, forced, rids, Seq::empty(), Seq::empty());
        lemma_trace_list_head(m, nm, forced, rids, Seq::empty(), Seq::empty());
        lemma_root_ids_match(old.nodes, old.roots);
        assert forall|j: int| 0 <= j < trails.len() implies (#[trigger] trails[j]).len() > 0
            && root_matches(old.roots, trails[j][0]) by {
            let w = choose|w: int| 0 <= w < rids.len() && trails[j][0] == bare_of(rids[w]);
            assert(root_matches(old.roots, bare_of(rids[w])));
        }
    }
}

/// **Affected paths are exactly the trails' root paths.**  The path set a
/// successful diff reports holds no repetition, and a path stands in it
/// exactly when some reported trail's first name resolves to a workspace
/// root entry declared under that path.
pub proof fn lemma_affected_paths_exact(old: SnapKey, new: SnapKey, forced: Seq<BareKey>)
    ensures
        diff_spec(old, new, forced) matches Ok(r) ==> {
            &&& r.1.no_duplicates()
            &&& forall|j: int| 0 <= j < r.0.len() ==> head_path(old.roots, #[trigger] r.0[j]) is Some
            &&& forall|p: Seq<char>|
                #[trigger] r.1.contains(p) <==> exists|j: int|
                    0 <= j < r.0.len() && head_path(old.roots, #[trigger] r.0[j]) == Some(p)
        },
{
    if diff_spec(old, new, forced) is Ok {
        let trails = diff_spec(old, new, forced)->Ok_0.0;
        assert(Seq::<Seq<char>>::empty().no_duplicates());
        lemma_resolve_paths_set(old.roots, trails, Seq::empty());
    }
}

} // verus!
