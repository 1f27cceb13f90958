//! The divergence tracer: the recursive walk that compares the two
//! snapshots from one starting node and collects divergence trails.
//!
//! From a node, the walk first answers whether the node itself is a leaf
//! divergence: its `(name, version)` pair is force-modified, or the new
//! snapshot has no node under its identity.  Then the node's edge sets in
//! the two snapshots are compared: each edge present on one side only
//! yields a trail ending at that edge's target.  Only when the edge sets
//! agree exactly does the walk descend into the dependencies.
//!
//! The dependency relation of the old snapshot is expected to be acyclic;
//! rather than assume it, the walk keeps the identities of the current
//! trail's ancestry and reports a cycle as an error when one recurs.

use vstd::prelude::*;
use vstd::set_lib::lemma_len_subset;

use crate::errors::DiffError;
use crate::errors::ErrKey;
use crate::ids::BareId;
use crate::ids::BareKey;
use crate::ids::FullId;
use crate::ids::FullKey;
use crate::ids::bare_of;
use crate::ids::clone_bares;
use crate::ids::clone_fulls;
use crate::ids::contains_bare;
use crate::ids::contains_full;
use crate::ids::strip_source;
use crate::snapshot::Snapshot;
use crate::snapshot::node_map;
use crate::snapshot::lemma_node_map_dom;

verus! {

/// The ancestry record of one walk: no identity recurs, and every
/// recorded identity is a node of the old snapshot.
pub open spec fn visited_ok(nodes: Map<FullKey, Seq<FullKey>>, visited: Seq<FullKey>) -> bool {
    &&& visited.no_duplicates()
    &&& forall|i: int| 0 <= i < visited.len() ==> nodes.contains_key(#[trigger] visited[i])
}

/// An ancestry record cannot outgrow the node map it lives in.
pub proof fn lemma_visited_bound(nodes: Map<FullKey, Seq<FullKey>>, visited: Seq<FullKey>)
    requires
        nodes.dom().finite(),
        visited_ok(nodes, visited),
    ensures
        visited.len() <= nodes.dom().len(),
{
    visited.unique_seq_to_set();
    assert forall|k: FullKey| visited.to_set().contains(k) implies nodes.dom().contains(k) by {
        let i = choose|i: int| 0 <= i < visited.len() && visited[i] == k;
        assert(nodes.contains_key(visited[i]));
    }
    lemma_len_subset(visited.to_set(), nodes.dom());
}

/// The trails emitted for the edges of `src` that `other` does not have:
/// one per missing edge, in edge order, each one step past `trail`.
pub open spec fn emit_missing(
    src: Seq<FullKey>,
    other: Seq<FullKey>,
    trail: Seq<BareKey>,
) -> Seq<Seq<BareKey>>
    decreases src.len(),
{
    if src.len() == 0 {
        Seq::empty()
    } else {
        let head: Seq<Seq<BareKey>> = if !other.contains(src[0]) {
            seq![trail.push(bare_of(src[0]))]
        } else {
            Seq::empty()
        };
        head + emit_missing(src.drop_first(), other, trail)
    }
}

/// The walk from one node: the trails it emits, or the failure that
/// aborts the whole diff.  `trail` is the ancestry as reported (bare
/// pairs, not yet including this node); `visited` is the ancestry's full
/// identities, used only to refuse cycles.
pub open spec fn trace_node(
    old: Map<FullKey, Seq<FullKey>>,
    new: Map<FullKey, Seq<FullKey>>,
    forced: Seq<BareKey>,
    id: FullKey,
    trail: Seq<BareKey>,
    visited: Seq<FullKey>,
) -> Result<Seq<Seq<BareKey>>, ErrKey>
    decreases old.dom().len() - visited.len(), 0int, 0int
        when old.dom().finite() && visited_ok(old, visited)
        via trace_node_decreases
{
    if visited.contains(id) {
        Err(ErrKey::CycleDetected(id))
    } else {
        let t = trail.push(bare_of(id));
        if forced.contains(bare_of(id)) || !new.contains_key(id) {
            Ok(seq![t])
        } else if !old.contains_key(id) {
            Err(ErrKey::MalformedSnapshot(id))
        } else {
            let direct = emit_missing(old[id], new[id], t) + emit_missing(new[id], old[id], t);
            if direct.len() > 0 {
                Ok(direct)
            } else {
                trace_list(old, new, forced, old[id], t, visited.push(id))
            }
        }
    }
}

/// The walks from a list of sibling nodes, in order, with one shared
/// ancestry: the concatenation of their trails, or the first failure.
pub open spec fn trace_list(
    old: Map<FullKey, Seq<FullKey>>,
    new: Map<FullKey, Seq<FullKey>>,
    forced: Seq<BareKey>,
    ids: Seq<FullKey>,
    trail: Seq<BareKey>,
    visited: Seq<FullKey>,
) -> Result<Seq<Seq<BareKey>>, ErrKey>
    decreases old.dom().len() - visited.len(), 1int, ids.len()
        when old.dom().finite() && visited_ok(old, visited)
{
    if ids.len() == 0 {
        Ok(Seq::empty())
    } else {
        match trace_node(old, new, forced, ids[0], trail, visited) {
            Err(e) => Err(e),
            Ok(head) => match trace_list(old, new, forced, ids.drop_first(), trail, visited) {
                Err(e) => Err(e),
                Ok(rest) => Ok(head + rest),
            },
        }
    }
}

/// A fresh identity of a node of the old snapshot may join an ancestry
/// record it is not yet part of.
pub proof fn lemma_visited_push(
    nodes: Map<FullKey, Seq<FullKey>>,
    visited: Seq<FullKey>,
    id: FullKey,
)
    requires
        visited_ok(nodes, visited),
        !visited.contains(id),
        nodes.contains_key(id),
    ensures
        visited_ok(nodes, visited.push(id)),
{
    let v2 = visited.push(id);
    assert forall|i: int, j: int| 0 <= i < j < v2.len() implies v2[i] != v2[j] by {
        if j == v2.len() - 1 {
            assert(v2[i] == visited[i]);
        }
    }
    assert forall|i: int| 0 <= i < v2.len() implies nodes.contains_key(#[trigger] v2[i]) by {
        if i < visited.len() {
            assert(nodes.contains_key(visited[i]));
        }
    }
}

/// Every trail emitted for missing edges is the given trail extended by
/// exactly one identifier.
pub proof fn lemma_emit_missing_extends(
    src: Seq<FullKey>,
    other: Seq<FullKey>,
    trail: Seq<BareKey>,
)
    ensures
        forall|j: int|
            0 <= j < emit_missing(src, other, trail).len() ==> (#[trigger] emit_missing(
                src,
                other,
                trail,
            )[j]).len() == trail.len() + 1 && trail.is_prefix_of(emit_missing(src, other, trail)[j]),
    decreases src.len(),
{
    if src.len() == 0 {
    } else {
        lemma_emit_missing_extends(src.drop_first(), other, trail);
        let t = trail.push(bare_of(src[0]));
        assert(trail =~= t.subrange(0, trail.len() as int));
        assert forall|j: int| 0 <= j < emit_missing(src, other, trail).len() implies (
        #[trigger] emit_missing(src, other, trail)[j]).len() == trail.len() + 1
            && trail.is_prefix_of(emit_missing(src, other, trail)[j]) by {
            let em = emit_missing(src, other, trail);
            let rest = emit_missing(src.drop_first(), other, trail);
            if !other.contains(src[0]) {
                if j == 0 {
                    assert(em[0] == t);
                } else {
                    assert(em[j] == rest[j - 1]);
                }
            } else {
                assert(em[j] == rest[j]);
            }
        }
    }
}

/// Every trail that a walk from one node emits extends the walk's
/// starting trail by at least one identifier.
pub proof fn lemma_trace_node_extends(
    old: Map<FullKey, Seq<FullKey>>,
    new: Map<FullKey, Seq<FullKey>>,
    forced: Seq<BareKey>,
    id: FullKey,
    trail: Seq<BareKey>,
    visited: Seq<FullKey>,
)
    requires
        old.dom().finite(),
        visited_ok(old, visited),
    ensures
        trace_node(old, new, forced, id, trail, visited) matches Ok(ts) ==> forall|j: int|
            0 <= j < ts.len() ==> trail.is_prefix_of(#[trigger] ts[j]) && ts[j].len() > trail.len(),
    decreases old.dom().len() - visited.len(), 0int, 0int,
{
    if visited.contains(id) {
    } else {
        let t = trail.push(bare_of(id));
        assert(trail =~= t.subrange(0, trail.len() as int));
        if forced.contains(bare_of(id)) || !new.contains_key(id) {
            assert(seq![t][0] == t);
        } else if !old.contains_key(id) {
        } else {
            let em1 = emit_missing(old[id], new[id], t);
            let em2 = emit_missing(new[id], old[id], t);
            let direct = em1 + em2;
            lemma_emit_missing_extends(old[id], new[id], t);
            lemma_emit_missing_extends(new[id], old[id], t);
            if direct.len() > 0 {
                assert forall|j: int| 0 <= j < direct.len() implies trail.is_prefix_of(
                    #[trigger] direct[j],
                ) && direct[j].len() > trail.len() by {
                    let d = direct[j];
                    if j < em1.len() {
                        assert(d == em1[j]);
                    } else {
                        assert(d == em2[j - em1.len()]);
                    }
                    assert(t.is_prefix_of(d));
                    assert(trail =~= d.subrange(0, trail.len() as int)) by {
                        assert(t =~= d.subrange(0, t.len() as int));
                        assert forall|x: int| 0 <= x < trail.len() implies trail[x] == d.subrange(
                            0,
                            trail.len() as int,
                        )[x] by {
                            assert(trail[x] == t[x]);
                            assert(t[x] == d.subrange(0, t.len() as int)[x]);
                        }
                    }
                }
            } else {
                lemma_visited_push(old, visited, id);
                lemma_visited_bound(old, visited.push(id));
                lemma_trace_list_extends(old, new, forced, old[id], t, visited.push(id));
                if trace_list(old, new, forced, old[id], t, visited.push(id)) is Ok {
                    let ts = trace_list(old, new, forced, old[id], t, visited.push(id))->Ok_0;
                    assert forall|j: int| 0 <= j < ts.len() implies trail.is_prefix_of(
                        #[trigger] ts[j],
                    ) && ts[j].len() > trail.len() by {
                        assert(t.is_prefix_of(ts[j]));
                        assert(trail =~= ts[j].subrange(0, trail.len() as int)) by {
                            assert forall|x: int| 0 <= x < trail.len() implies trail[x]
                                == ts[j].subrange(0, trail.len() as int)[x] by {
                                assert(trail[x] == t[x]);
                                assert(t[x] == ts[j].subrange(0, t.len() as int)[x]);
                            }
                        }
                    }
                }
            }
        }
    }
}

/// Every trail that the walks from a list of siblings emit extends the
/// shared starting trail by at least one identifier.
pub proof fn lemma_trace_list_extends(
    old: Map<FullKey, Seq<FullKey>>,
    new: Map<FullKey, Seq<FullKey>>,
    forced: Seq<BareKey>,
    ids: Seq<FullKey>,
    trail: Seq<BareKey>,
    visited: Seq<FullKey>,
)
    requires
        old.dom().finite(),
        visited_ok(old, visited),
    ensures
        trace_list(old, new, forced, ids, trail, visited) matches Ok(ts) ==> forall|j: int|
            0 <= j < ts.len() ==> trail.is_prefix_of(#[trigger] ts[j]) && ts[j].len() > trail.len(),
    decreases old.dom().len() - visited.len(), 1int, ids.len(),
{
    if ids.len() == 0 {
    } else {
        lemma_trace_node_extends(old, new, forced, ids[0], trail, visited);
        lemma_trace_list_extends(old, new, forced, ids.drop_first(), trail, visited);
        if trace_list(old, new, forced, ids, trail, visited) is Ok {
            let head = trace_node(old, new, forced, ids[0], trail, visited)->Ok_0;
            let rest = trace_list(old, new, forced, ids.drop_first(), trail, visited)->Ok_0;
            let ts = head + rest;
            assert forall|j: int| 0 <= j < ts.len() implies trail.is_prefix_of(#[trigger] ts[j])
                && ts[j].len() > trail.len() by {
                if j < head.len() {
                    assert(ts[j] == head[j]);
                } else {
                    assert(ts[j] == rest[j - head.len()]);
                }
            }
        }
    }
}

/// At the position right after the starting trail, every trail that a
/// walk from one node emits holds that node's own pair.
pub proof fn lemma_trace_node_head(
    old: Map<FullKey, Seq<FullKey>>,
    new: Map<FullKey, Seq<FullKey>>,
    forced: Seq<BareKey>,
    id: FullKey,
    trail: Seq<BareKey>,
    visited: Seq<FullKey>,
)
    requires
        old.dom().finite(),
        visited_ok(old, visited),
    ensures
        trace_node(old, new, forced, id, trail, visited) matches Ok(ts) ==> forall|j: int|
            0 <= j < ts.len() ==> (#[trigger] ts[j])[trail.len() as int] == bare_of(id),
    decreases old.dom().len() - visited.len(), 0int, 0int,
{
    if visited.contains(id) {
    } else {
        let t = trail.push(bare_of(id));
        assert(t[trail.len() as int] == bare_of(id));
        if forced.contains(bare_of(id)) || !new.contains_key(id) {
            assert(seq![t][0] == t);
        } else if !old.contains_key(id) {
        } else {
            let em1 = emit_missing(old[id], new[id], t);
            let em2 = emit_missing(new[id], old[id], t);
            let direct = em1 + em2;
            lemma_emit_missing_extends(old[id], new[id], t);
            lemma_emit_missing_extends(new[id], old[id], t);
            if direct.len() > 0 {
                assert forall|j: int| 0 <= j < direct.len() implies (#[trigger] direct[j])[trail.len() as int]
                    == bare_of(id) by {
                    let d = direct[j];
                    if j < em1.len() {
                        assert(d == em1[j]);
                    } else {
                        assert(d == em2[j - em1.len()]);
                    }
                    assert(t.is_prefix_of(d));
                    assert(d.subrange(0, t.len() as int)[trail.len() as int] == bare_of(id));
                }
            } else {
                lemma_visited_push(old, visited, id);
                lemma_visited_bound(old, visited.push(id));
                lemma_trace_list_extends(old, new, forced, old[id], t, visited.push(id));
                if trace_list(old, new, forced, old[id], t, visited.push(id)) is Ok {
                    let ts = trace_list(old, new, forced, old[id], t, visited.push(id))->Ok_0;
                    assert forall|j: int| 0 <= j < ts.len() implies (#[trigger] ts[j])[trail.len() as int]
                        == bare_of(id) by {
                        assert(t.is_prefix_of(ts[j]));
                        assert(ts[j].subrange(0, t.len() as int)[trail.len() as int] == bare_of(
                            id,
                        ));
                    }
                }
            }
        }
    }
}

/// At the position right after the shared starting trail, every trail
/// that the walks from a list of siblings emit holds the pair of one of
/// the siblings.
pub proof fn lemma_trace_list_head(
    old: Map<FullKey, Seq<FullKey>>,
    new: Map<FullKey, Seq<FullKey>>,
    forced: Seq<BareKey>,
    ids: Seq<FullKey>,
    trail: Seq<BareKey>,
    visited: Seq<FullKey>,
)
    requires
        old.dom().finite(),
        visited_ok(old, visited),
    ensures
        trace_list(old, new, forced, ids, trail, visited) matches Ok(ts) ==> forall|j: int|
            0 <= j < ts.len() ==> exists|w: int|
                0 <= w < ids.len() && (#[trigger] ts[j])[trail.len() as int] == bare_of(ids[w]),
    decreases old.dom().len() - visited.len(), 1int, ids.len(),
{
    if ids.len() == 0 {
    } else {
        lemma_trace_node_head(old, new, forced, ids[0], trail, visited);
        lemma_trace_list_head(old, new, forced, ids.drop_first(), trail, visited);
        if trace_list(old, new, forced, ids, trail, visited) is Ok {
            let head = trace_node(old, new, forced, ids[0], trail, visited)->Ok_0;
            let rest = trace_list(old, new, forced, ids.drop_first(), trail, visited)->Ok_0;
            let ts = head + rest;
            assert forall|j: int| 0 <= j < ts.len() implies exists|w: int|
                0 <= w < ids.len() && (#[trigger] ts[j])[trail.len() as int] == bare_of(
                    ids[w],
                ) by {
                if j < head.len() {
                    assert(ts[j] == head[j]);
                    assert(ts[j][trail.len() as int] == bare_of(ids[0]));
                } else {
                    assert(ts[j] == rest[j - head.len()]);
                    let w = choose|w: int|
                        0 <= w < ids.drop_first().len() && rest[j - head.len()][trail.len() as int]
                            == bare_of(ids.drop_first()[w]);
                    assert(ids.drop_first()[w] == ids[w + 1]);
                    assert(ts[j][trail.len() as int] == bare_of(ids[w + 1]));
                }
            }
        }
    }
}

/// Walks from one node of the old snapshot and appends every divergence
/// trail found at or below it to `result`, exactly as [`trace_node`]
/// says.  `trail` holds the reported ancestry, `visited` the ancestry's
/// full identities.  On failure the diff is aborted; `result` is then
/// meaningless and is discarded by the caller.
#[verifier::loop_isolation(false)]
#[verifier::rlimit(100)]
pub fn diff(
    first: &Snapshot,
    second: &Snapshot,
    forced: &Vec<BareId>,
    id: &FullId,
    trail: &Vec<BareId>,
    visited: &Vec<FullId>,
    result: &mut Vec<Vec<BareId>>,
) -> (r: Result<(), DiffError>)
    requires
        first.wf(),
        second.wf(),
        visited_ok(node_map(first@.nodes), visited.deep_view()),
    ensures
        match r {
            Ok(_) => {
                &&& old(result).deep_view().len() <= final(result).deep_view().len()
                &&& old(result).deep_view() == final(result).deep_view().take(
                    old(result).deep_view().len() as int,
                )
                &&& trace_node(
                    node_map(first@.nodes),
                    node_map(second@.nodes),
                    forced.deep_view(),
                    id@,
                    trail.deep_view(),
                    visited.deep_view(),
                ) == Ok::<Seq<Seq<BareKey>>, ErrKey>(
                    final(result).deep_view().skip(old(result).deep_view().len() as int),
                )
            },
            Err(e) => trace_node(
                node_map(first@.nodes),
                node_map(second@.nodes),
                forced.deep_view(),
                id@,
                trail.deep_view(),
                visited.deep_view(),
            ) == Err::<Seq<Seq<BareKey>>, ErrKey>(e@),
        },
    decreases node_map(first@.nodes).dom().len() - visited.deep_view().len(),
{
    let ghost om = node_map(first@.nodes);
    let ghost nm = node_map(second@.nodes);
    let ghost fv = forced.deep_view();
    let ghost visv = visited.deep_view();
    let ghost trailv = trail.deep_view();
    let ghost start = result.deep_view();
    proof {
        lemma_node_map_dom(first@.nodes);
    }

    if contains_full(visited, id) {
        return Err(DiffError::CycleDetected(id.duplicate()));
    }

    let bare = strip_source(id);
    let is_forced = contains_bare(forced, &bare);
    let mut trail2 = clone_bares(trail);
    trail2.push(bare);
    let ghost t2 = trail2.deep_view();
    proof {
        assert(t2 =~= trailv.push(bare_of(id@)));
    }

    let second_node_opt = second.find_node(id);
    if is_forced || second_node_opt.is_none() {
        result.push(trail2);
        proof {
            assert(result.deep_view() =~= start + seq![t2]);
            assert(result.deep_view().take(start.len() as int) =~= start);
            assert(result.deep_view().skip(start.len() as int) =~= seq![t2]);
        }
        return Ok(());
    }
    let second_node = second_node_opt.unwrap();

    let first_node_opt = first.find_node(id);
    if first_node_opt.is_none() {
        return Err(DiffError::MalformedSnapshot(id.duplicate()));
    }
    let first_node = first_node_opt.unwrap();

    let od = &first_node.deps;
    let nd = &second_node.deps;
    let ghost odv = od.deep_view();
    let ghost ndv = nd.deep_view();
    proof {
        assert(om[id@] == odv);
        assert(nm[id@] == ndv);
    }

    let mut found = false;
    // Edges the old snapshot has and the new one lacks: each is a
    // divergence of its own, reported one step past this node.
    let n1 = od.len();
    proof {
        assert(odv.skip(0) =~= odv);
    }
    for k in 0..n1
        invariant
            n1 == od.len(),
            odv == od.deep_view(),
            ndv == nd.deep_view(),
            t2 == trail2.deep_view(),
            result.deep_view().len() >= start.len(),
            result.deep_view().take(start.len() as int) == start,
            start + emit_missing(odv, ndv, t2) == result.deep_view() + emit_missing(
                odv.skip(k as int),
                ndv,
                t2,
            ),
            found == (result.deep_view().len() > start.len()),
    {
        let ghost mid = result.deep_view();
        if !contains_full(nd, &od[k]) {
            let mut t = clone_bares(&trail2);
            t.push(strip_source(&od[k]));
            proof {
                assert(t.deep_view() =~= t2.push(bare_of(odv[k as int])));
            }
            result.push(t);
            found = true;
            proof {
                assert(result.deep_view() =~= mid.push(t2.push(bare_of(odv[k as int]))));
                assert(result.deep_view().take(start.len() as int) =~= start);
            }
        }
        proof {
            assert(odv.skip(k as int).drop_first() =~= odv.skip(k as int + 1));
            assert(odv.skip(k as int)[0] == odv[k as int]);
            if !ndv.contains(odv[k as int]) {
                assert(emit_missing(odv.skip(k as int), ndv, t2) == seq![
                    t2.push(bare_of(odv[k as int])),
                ] + emit_missing(odv.skip(k as int + 1), ndv, t2));
                assert((result.deep_view() + emit_missing(odv.skip(k as int + 1), ndv, t2)) =~= (
                mid + emit_missing(odv.skip(k as int), ndv, t2)));
            } else {
                assert(emit_missing(odv.skip(k as int), ndv, t2) == Seq::<
                    Seq<BareKey>,
                >::empty() + emit_missing(odv.skip(k as int + 1), ndv, t2));
                assert(emit_missing(odv.skip(k as int), ndv, t2) =~= emit_missing(
                    odv.skip(k as int + 1),
                    ndv,
                    t2,
                ));
            }
        }
    }
    let ghost after_removed = result.deep_view();
    proof {
        assert(odv.skip(n1 as int) =~= Seq::<FullKey>::empty());
        assert(emit_missing(odv.skip(n1 as int), ndv, t2) == Seq::<Seq<BareKey>>::empty());
        assert(after_removed + Seq::<Seq<BareKey>>::empty() =~= after_removed);
        assert(start + emit_missing(odv, ndv, t2) == after_removed);
    }

    // Edges the new snapshot has and the old one lacks.
    let n2 = nd.len();
    proof {
        assert(ndv.skip(0) =~= ndv);
    }
    for k in 0..n2
        invariant
            n2 == nd.len(),
            odv == od.deep_view(),
            ndv == nd.deep_view(),
            t2 == trail2.deep_view(),
            result.deep_view().len() >= start.len(),
            result.deep_view().take(start.len() as int) == start,
            after_removed + emit_missing(ndv, odv, t2) == result.deep_view() + emit_missing(
                ndv.skip(k as int),
                odv,
                t2,
            ),
            after_removed == start + emit_missing(odv, ndv, t2),
            result.deep_view().len() >= after_removed.len(),
            found == (result.deep_view().len() > start.len()),
    {
        let ghost mid = result.deep_view();
        if !contains_full(od, &nd[k]) {
            let mut t = clone_bares(&trail2);
            t.push(strip_source(&nd[k]));
            proof {
                assert(t.deep_view() =~= t2.push(bare_of(ndv[k as int])));
            }
            result.push(t);
            found = true;
            proof {
                assert(result.deep_view() =~= mid.push(t2.push(bare_of(ndv[k as int]))));
                assert(result.deep_view().take(start.len() as int) =~= start);
            }
        }
        proof {
            assert(ndv.skip(k as int).drop_first() =~= ndv.skip(k as int + 1));
            assert(ndv.skip(k as int)[0] == ndv[k as int]);
            if !odv.contains(ndv[k as int]) {
                assert(emit_missing(ndv.skip(k as int), odv, t2) == seq![
                    t2.push(bare_of(ndv[k as int])),
                ] + emit_missing(ndv.skip(k as int + 1), odv, t2));
                assert((result.deep_view() + emit_missing(ndv.skip(k as int + 1), odv, t2)) =~= (
                mid + emit_missing(ndv.skip(k as int), odv, t2)));
            } else {
                assert(emit_missing(ndv.skip(k as int), odv, t2) == Seq::<
                    Seq<BareKey>,
                >::empty() + emit_missing(ndv.skip(k as int + 1), odv, t2));
                assert(emit_missing(ndv.skip(k as int), odv, t2) =~= emit_missing(
                    ndv.skip(k as int + 1),
                    odv,
                    t2,
                ));
            }
        }
    }
    let ghost direct = emit_missing(odv, ndv, t2) + emit_missing(ndv, odv, t2);
    proof {
        assert(ndv.skip(n2 as int) =~= Seq::<FullKey>::empty());
        assert(emit_missing(ndv.skip(n2 as int), odv, t2) == Seq::<Seq<BareKey>>::empty());
        assert(result.deep_view() + Seq::<Seq<BareKey>>::empty() =~= result.deep_view());
        assert(after_removed + emit_missing(ndv, odv, t2) == result.deep_view());
        assert(result.deep_view() =~= start + direct);
        assert(result.deep_view().skip(start.len() as int) =~= direct);
    }

    if found {
        proof {
            assert(direct.len() > 0);
            assert(trace_node(om, nm, fv, id@, trailv, visv) == Ok::<Seq<Seq<BareKey>>, ErrKey>(
                direct,
            ));
        }
        return Ok(());
    }

    // The edge sets agree here: descend into the dependencies, with this
    // node joining the ancestry.
    proof {
        assert(direct.len() == 0);
        assert(result.deep_view() =~= start);
    }
    let mut visited2 = clone_fulls(visited);
    visited2.push(id.duplicate());
    let ghost v2 = visited2.deep_view();
    proof {
        assert(v2 =~= visv.push(id@));
        assert forall|i: int, j: int| 0 <= i < j < v2.len() implies v2[i] != v2[j] by {
            if j == v2.len() - 1 {
                assert(v2[i] == visv[i]);
                assert(!visv.contains(id@));
            }
        }
        assert(v2.no_duplicates());
        assert forall|i: int| 0 <= i < v2.len() implies om.contains_key(#[trigger] v2[i]) by {
            if i < visv.len() {
                assert(om.contains_key(visv[i]));
            }
        }
        assert(visited_ok(om, v2));
        assert(odv.skip(0) =~= odv);
    }

    let n3 = od.len();
    for k in 0..n3
        invariant
            n3 == od.len(),
            odv == od.deep_view(),
            t2 == trail2.deep_view(),
            v2 == visited2.deep_view(),
            om == node_map(first@.nodes),
            nm == node_map(second@.nodes),
            fv == forced.deep_view(),
            first.wf(),
            second.wf(),
            om.dom().finite(),
            visited_ok(om, v2),
            result.deep_view().len() >= start.len(),
            result.deep_view().take(start.len() as int) == start,
            trace_list(om, nm, fv, odv, t2, v2) == match trace_list(
                om,
                nm,
                fv,
                odv.skip(k as int),
                t2,
                v2,
            ) {
                Err(e) => Err::<Seq<Seq<BareKey>>, ErrKey>(e),
                Ok(rest) => Ok::<Seq<Seq<BareKey>>, ErrKey>(
                    result.deep_view().skip(start.len() as int) + rest,
                ),
            },
    {
        let ghost mid = result.deep_view();
        proof {
            lemma_visited_bound(om, v2);
        }
        let r = diff(first, second, forced, &od[k], &trail2, &visited2, result);
        proof {
            assert(odv.skip(k as int).drop_first() =~= odv.skip(k as int + 1));
            assert(odv.skip(k as int)[0] == odv[k as int]);
        }
        match r {
            Err(e) => {
                proof {
                    assert(trace_node(om, nm, fv, odv[k as int], t2, v2) == Err::<
                        Seq<Seq<BareKey>>,
                        ErrKey,
                    >(e@));
                    assert(trace_list(om, nm, fv, odv.skip(k as int), t2, v2) == Err::<
                        Seq<Seq<BareKey>>,
                        ErrKey,
                    >(e@));
                    assert(trace_node(om, nm, fv, id@, trailv, visv) == Err::<
                        Seq<Seq<BareKey>>,
                        ErrKey,
                    >(e@));
                }
                return Err(e);
            },
            Ok(_) => {
                proof {
                    let ts = result.deep_view().skip(mid.len() as int);
                    assert(trace_node(om, nm, fv, odv[k as int], t2, v2) == Ok::<
                        Seq<Seq<BareKey>>,
                        ErrKey,
                    >(ts));
                    assert(result.deep_view() =~= mid + ts);
                    assert(result.deep_view().take(start.len() as int) =~= start);
                    if trace_list(om, nm, fv, odv.skip(k as int + 1), t2, v2) is Ok {
                        let rest = trace_list(om, nm, fv, odv.skip(k as int + 1), t2, v2)->Ok_0;
                        assert(trace_list(om, nm, fv, odv.skip(k as int), t2, v2) == Ok::<
                            Seq<Seq<BareKey>>,
                            ErrKey,
                        >(ts + rest));
                        assert((mid.skip(start.len() as int) + (ts + rest)) =~= (
                        result.deep_view().skip(start.len() as int) + rest));
                    }
                }
            },
        }
    }
    proof {
        assert(odv.skip(n3 as int) =~= Seq::<FullKey>::empty());
        assert(trace_list(om, nm, fv, odv.skip(n3 as int), t2, v2) == Ok::<
            Seq<Seq<BareKey>>,
            ErrKey,
        >(Seq::empty()));
        assert((result.deep_view().skip(start.len() as int) + Seq::<Seq<BareKey>>::empty()) =~= (
        result.deep_view().skip(start.len() as int)));
        assert(trace_node(om, nm, fv, id@, trailv, visv) == trace_list(om, nm, fv, odv, t2, v2));
    }
    Ok(())
}

/// Walks from each of the given root nodes in turn, with an empty trail
/// and ancestry, and returns every divergence trail found, in walk order.
#[verifier::loop_isolation(false)]
#[verifier::rlimit(60)]
pub fn trace_roots(
    first: &Snapshot,
    second: &Snapshot,
    forced: &Vec<BareId>,
    ids: &Vec<FullId>,
) -> (r: Result<Vec<Vec<BareId>>, DiffError>)
    requires
        first.wf(),
        second.wf(),
    ensures
        match r {
            Ok(ts) => trace_list(
                node_map(first@.nodes),
                node_map(second@.nodes),
                forced.deep_view(),
                ids.deep_view(),
                Seq::empty(),
                Seq::empty(),
            ) == Ok::<Seq<Seq<BareKey>>, ErrKey>(ts.deep_view()),
            Err(e) => trace_list(
                node_map(first@.nodes),
                node_map(second@.nodes),
                forced.deep_view(),
                ids.deep_view(),
                Seq::empty(),
                Seq::empty(),
            ) == Err::<Seq<Seq<BareKey>>, ErrKey>(e@),
        },
{
    let ghost om = node_map(first@.nodes);
    let ghost nm = node_map(second@.nodes);
    let ghost fv = forced.deep_view();
    let ghost ridv = ids.deep_view();
    proof {
        lemma_node_map_dom(first@.nodes);
    }
    let trail0: Vec<BareId> = Vec::new();
    let visited0: Vec<FullId> = Vec::new();
    let mut trails: Vec<Vec<BareId>> = Vec::new();
    proof {
        assert(trail0.deep_view() =~= Seq::<BareKey>::empty());
        assert(visited0.deep_view() =~= Seq::<FullKey>::empty());
        assert(trails.deep_view() =~= Seq::<Seq<BareKey>>::empty());
        assert(visited_ok(om, visited0.deep_view()));
        assert(ridv.skip(0) =~= ridv);
    }
    let n = ids.len();
    for k in 0..n
        invariant
            trace_list(om, nm, fv, ridv, Seq::empty(), Seq::empty()) == match trace_list(
                om,
                nm,
                fv,
                ridv.skip(k as int),
                Seq::empty(),
                Seq::empty(),
            ) {
                Err(e) => Err::<Seq<Seq<BareKey>>, ErrKey>(e),
                Ok(rest) => Ok::<Seq<Seq<BareKey>>, ErrKey>(trails.deep_view() + rest),
            },
    {
        let ghost mid = trails.deep_view();
        let r = diff(first, second, forced, &ids[k], &trail0, &visited0, &mut trails);
        proof {
            assert(ridv.skip(k as int)[0] == ridv[k as int]);
            assert(ridv[k as int] == ids[k as int]@);
            assert(ridv.skip(k as int).drop_first() =~= ridv.skip(k as int + 1));
        }
        match r {
            Err(e) => {
                proof {
                    assert(trace_node(om, nm, fv, ridv[k as int], Seq::empty(), Seq::empty())
                        == Err::<Seq<Seq<BareKey>>, ErrKey>(e@));
                    assert(trace_list(om, nm, fv, ridv.skip(k as int), Seq::empty(), Seq::empty())
                        == Err::<Seq<Seq<BareKey>>, ErrKey>(e@));
                }
                return Err(e);
            },
            Ok(_) => {
                proof {
                    let ts = trails.deep_view().skip(mid.len() as int);
                    assert(trace_node(om, nm, fv, ridv[k as int], Seq::empty(), Seq::empty())
                        == Ok::<Seq<Seq<BareKey>>, ErrKey>(ts));
                    assert(trails.deep_view() =~= mid + ts);
                    if trace_list(om, nm, fv, ridv.skip(k as int + 1), Seq::empty(), Seq::empty())
                        is Ok {
                        let rest = trace_list(
                            om,
                            nm,
                            fv,
                            ridv.skip(k as int + 1),
                            Seq::empty(),
                            Seq::empty(),
                        )->Ok_0;
                        assert(trace_list(
                            om,
                            nm,
                            fv,
                            ridv.skip(k as int),
                            Seq::empty(),
                            Seq::empty(),
                        ) == Ok::<Seq<Seq<BareKey>>, ErrKey>(ts + rest));
                        assert((mid + (ts + rest)) =~= (trails.deep_view() + rest));
                    }
                }
            },
        }
    }
    proof {
        assert(ridv.skip(n as int) =~= Seq::<FullKey>::empty());
        assert(trace_list(om, nm, fv, ridv, Seq::empty(), Seq::empty()) == Ok::<
            Seq<Seq<BareKey>>,
            ErrKey,
        >(trails.deep_view())) by {
            assert(trace_list(om, nm, fv, ridv.skip(n as int), Seq::empty(), Seq::empty()) == Ok::<
                Seq<Seq<BareKey>>,
                ErrKey,
            >(Seq::empty()));
            assert((trails.deep_view() + Seq::<Seq<BareKey>>::empty()) =~= trails.deep_view());
        }
    }
    Ok(trails)
}

#[via_fn]
proof fn trace_node_decreases(
    old: Map<FullKey, Seq<FullKey>>,
    new: Map<FullKey, Seq<FullKey>>,
    forced: Seq<BareKey>,
    id: FullKey,
    trail: Seq<BareKey>,
    visited: Seq<FullKey>,
) {
    if old.dom().finite() && visited_ok(old, visited) && !visited.contains(id) && old.contains_key(
        id,
    ) {
        lemma_visited_bound(old, visited.push(id));
    }
}

} // verus!
