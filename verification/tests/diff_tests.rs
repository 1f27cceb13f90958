//! End-to-end behaviour of the snapshot diff: scenario coverage for the
//! tracer, the root and path resolvers, and every failure mode.

use subup::diff::diff_resolve;
use subup::errors::DiffError;
use subup::ids::BareId;
use subup::ids::FullId;
use subup::resolve::resolve_paths;
use subup::snapshot::Node;
use subup::snapshot::Snapshot;
use subup::snapshot::WorkspaceRoot;
use subup::strip_source;

fn fid(name: &str, version: &str, source: &str) -> FullId {
    FullId {
        name: name.to_string(),
        version: version.to_string(),
        source: source.to_string(),
    }
}

fn bid(name: &str, version: &str) -> BareId {
    BareId {
        name: name.to_string(),
        version: version.to_string(),
    }
}

fn wroot(name: &str, version: &str, path: &str) -> WorkspaceRoot {
    WorkspaceRoot {
        name: name.to_string(),
        version: version.to_string(),
        url: format!("path+file:/{}", path),
    }
}

fn node(id: FullId, deps: Vec<FullId>) -> Node {
    Node { id, deps }
}

#[test]
fn identity_reports_nothing() {
    let build = || Snapshot {
        nodes: vec![
            node(fid("a", "1.0.0", "reg"), vec![fid("b", "0.2.0", "reg")]),
            node(fid("b", "0.2.0", "reg"), vec![fid("c", "3.1.4", "reg")]),
            node(fid("c", "3.1.4", "reg"), vec![]),
        ],
        workspace_roots: vec![wroot("a", "1.0.0", "/ws/a")],
    };
    let old_snap = build();
    let new_snap = build();
    let result = diff_resolve(&old_snap, &new_snap, &vec![]).unwrap();
    assert_eq!(result.trails, Vec::<Vec<BareId>>::new());
    assert_eq!(result.affected_paths, Vec::<String>::new());
}

#[test]
fn forced_root_yields_single_trail() {
    let build = || Snapshot {
        nodes: vec![
            node(fid("a", "1.0.0", "reg"), vec![fid("b", "0.2.0", "reg")]),
            node(fid("b", "0.2.0", "reg"), vec![]),
        ],
        workspace_roots: vec![wroot("a", "1.0.0", "/ws/a")],
    };
    let old_snap = build();
    let new_snap = build();
    let forced = vec![bid("a", "1.0.0")];
    let result = diff_resolve(&old_snap, &new_snap, &forced).unwrap();
    assert_eq!(result.trails, vec![vec![bid("a", "1.0.0")]]);
    assert_eq!(result.affected_paths, vec!["/ws/a".to_string()]);
}

#[test]
fn single_added_dependency() {
    let old_snap = Snapshot {
        nodes: vec![
            node(fid("a", "1.0.0", "reg"), vec![fid("b", "0.2.0", "reg")]),
            node(fid("b", "0.2.0", "reg"), vec![]),
        ],
        workspace_roots: vec![wroot("a", "1.0.0", "/ws/a")],
    };
    let new_snap = Snapshot {
        nodes: vec![
            node(
                fid("a", "1.0.0", "reg"),
                vec![fid("b", "0.2.0", "reg"), fid("c", "3.1.4", "reg")],
            ),
            node(fid("b", "0.2.0", "reg"), vec![]),
            node(fid("c", "3.1.4", "reg"), vec![]),
        ],
        workspace_roots: vec![wroot("a", "1.0.0", "/ws/a")],
    };
    let result = diff_resolve(&old_snap, &new_snap, &vec![]).unwrap();
    assert_eq!(
        result.trails,
        vec![vec![bid("a", "1.0.0"), bid("c", "3.1.4")]]
    );
    assert_eq!(result.affected_paths, vec!["/ws/a".to_string()]);
}

#[test]
fn single_removed_dependency() {
    let old_snap = Snapshot {
        nodes: vec![
            node(
                fid("a", "1.0.0", "reg"),
                vec![fid("b", "0.2.0", "reg"), fid("c", "3.1.4", "reg")],
            ),
            node(fid("b", "0.2.0", "reg"), vec![]),
            node(fid("c", "3.1.4", "reg"), vec![]),
        ],
        workspace_roots: vec![wroot("a", "1.0.0", "/ws/a")],
    };
    let new_snap = Snapshot {
        nodes: vec![
            node(fid("a", "1.0.0", "reg"), vec![fid("b", "0.2.0", "reg")]),
            node(fid("b", "0.2.0", "reg"), vec![]),
        ],
        workspace_roots: vec![wroot("a", "1.0.0", "/ws/a")],
    };
    let result = diff_resolve(&old_snap, &new_snap, &vec![]).unwrap();
    assert_eq!(
        result.trails,
        vec![vec![bid("a", "1.0.0"), bid("c", "3.1.4")]]
    );
    assert_eq!(result.affected_paths, vec!["/ws/a".to_string()]);
}

#[test]
fn deep_divergence_found_through_unchanged_edges() {
    // The edge sets at `a` and at `b` agree in both snapshots, so the walk
    // descends to `c`, whose identity no longer has a node in the new
    // snapshot: the trail runs from the root down to the real change.
    let old_snap = Snapshot {
        nodes: vec![
            node(fid("a", "1.0.0", "reg"), vec![fid("b", "0.2.0", "reg")]),
            node(fid("b", "0.2.0", "reg"), vec![fid("c", "1.0.0", "reg")]),
            node(fid("c", "1.0.0", "reg"), vec![]),
        ],
        workspace_roots: vec![wroot("a", "1.0.0", "/ws/a")],
    };
    let new_snap = Snapshot {
        nodes: vec![
            node(fid("a", "1.0.0", "reg"), vec![fid("b", "0.2.0", "reg")]),
            node(fid("b", "0.2.0", "reg"), vec![fid("c", "1.0.0", "reg")]),
            node(fid("c", "2.0.0", "reg"), vec![]),
        ],
        workspace_roots: vec![wroot("a", "1.0.0", "/ws/a")],
    };
    let result = diff_resolve(&old_snap, &new_snap, &vec![]).unwrap();
    assert_eq!(
        result.trails,
        vec![vec![
            bid("a", "1.0.0"),
            bid("b", "0.2.0"),
            bid("c", "1.0.0"),
        ]]
    );
    assert_eq!(result.affected_paths, vec!["/ws/a".to_string()]);
}

#[test]
fn multiple_independent_roots() {
    let old_snap = Snapshot {
        nodes: vec![
            node(fid("a", "1.0.0", "reg"), vec![]),
            node(fid("d", "2.0.0", "reg"), vec![]),
        ],
        workspace_roots: vec![wroot("a", "1.0.0", "/ws/a"), wroot("d", "2.0.0", "/ws/d")],
    };
    let new_snap = Snapshot {
        nodes: vec![
            node(fid("a", "1.0.0", "reg"), vec![fid("b", "0.1.0", "reg")]),
            node(fid("d", "2.0.0", "reg"), vec![fid("e", "0.5.0", "reg")]),
            node(fid("b", "0.1.0", "reg"), vec![]),
            node(fid("e", "0.5.0", "reg"), vec![]),
        ],
        workspace_roots: vec![wroot("a", "1.0.0", "/ws/a"), wroot("d", "2.0.0", "/ws/d")],
    };
    let result = diff_resolve(&old_snap, &new_snap, &vec![]).unwrap();
    assert_eq!(
        result.trails,
        vec![
            vec![bid("a", "1.0.0"), bid("b", "0.1.0")],
            vec![bid("d", "2.0.0"), bid("e", "0.5.0")],
        ]
    );
    assert_eq!(
        result.affected_paths,
        vec!["/ws/a".to_string(), "/ws/d".to_string()]
    );
}

#[test]
fn node_removed_entirely_in_new() {
    let old_snap = Snapshot {
        nodes: vec![
            node(fid("a", "1.0.0", "reg"), vec![fid("x", "0.9.0", "reg")]),
            node(fid("x", "0.9.0", "reg"), vec![]),
        ],
        workspace_roots: vec![wroot("a", "1.0.0", "/ws/a")],
    };
    let new_snap = Snapshot {
        nodes: vec![node(
            fid("a", "1.0.0", "reg"),
            vec![fid("x", "0.9.0", "reg")],
        )],
        workspace_roots: vec![wroot("a", "1.0.0", "/ws/a")],
    };
    let result = diff_resolve(&old_snap, &new_snap, &vec![]).unwrap();
    assert_eq!(
        result.trails,
        vec![vec![bid("a", "1.0.0"), bid("x", "0.9.0")]]
    );
    assert_eq!(result.affected_paths, vec!["/ws/a".to_string()]);
}

#[test]
fn forced_stop_precedes_edge_comparison() {
    // The forced root has edge changes of its own; the walk still stops at
    // the root and reports the one-element trail, not the edge difference.
    let old_snap = Snapshot {
        nodes: vec![node(
            fid("a", "1.0.0", "reg"),
            vec![fid("b", "1.0.0", "reg")],
        )],
        workspace_roots: vec![wroot("a", "1.0.0", "/ws/a")],
    };
    let new_snap = Snapshot {
        nodes: vec![node(
            fid("a", "1.0.0", "reg"),
            vec![fid("b", "2.0.0", "reg")],
        )],
        workspace_roots: vec![wroot("a", "1.0.0", "/ws/a")],
    };
    let forced = vec![bid("a", "1.0.0")];
    let result = diff_resolve(&old_snap, &new_snap, &forced).unwrap();
    assert_eq!(result.trails, vec![vec![bid("a", "1.0.0")]]);
    assert_eq!(result.affected_paths, vec!["/ws/a".to_string()]);
}

#[test]
fn source_change_is_a_divergence() {
    // The same (name, version) under another source is another identity:
    // the edge differs on both sides, and both directions are reported.
    let old_snap = Snapshot {
        nodes: vec![node(
            fid("a", "1.0.0", "reg"),
            vec![fid("c", "3.0.0", "registry-one")],
        )],
        workspace_roots: vec![wroot("a", "1.0.0", "/ws/a")],
    };
    let new_snap = Snapshot {
        nodes: vec![node(
            fid("a", "1.0.0", "reg"),
            vec![fid("c", "3.0.0", "registry-two")],
        )],
        workspace_roots: vec![wroot("a", "1.0.0", "/ws/a")],
    };
    let result = diff_resolve(&old_snap, &new_snap, &vec![]).unwrap();
    assert_eq!(
        result.trails,
        vec![
            vec![bid("a", "1.0.0"), bid("c", "3.0.0")],
            vec![bid("a", "1.0.0"), bid("c", "3.0.0")],
        ]
    );
    assert_eq!(result.affected_paths, vec!["/ws/a".to_string()]);
}

#[test]
fn affected_paths_deduplicated_and_ordered() {
    // Two divergences under one root give two trails but one path; the
    // removed edges are reported in edge order, before the added one.
    let old_snap = Snapshot {
        nodes: vec![node(
            fid("a", "1.0.0", "reg"),
            vec![fid("c", "1.0.0", "reg"), fid("d", "1.0.0", "reg")],
        )],
        workspace_roots: vec![wroot("a", "1.0.0", "/ws/a")],
    };
    let new_snap = Snapshot {
        nodes: vec![node(
            fid("a", "1.0.0", "reg"),
            vec![fid("e", "1.0.0", "reg")],
        )],
        workspace_roots: vec![wroot("a", "1.0.0", "/ws/a")],
    };
    let result = diff_resolve(&old_snap, &new_snap, &vec![]).unwrap();
    assert_eq!(
        result.trails,
        vec![
            vec![bid("a", "1.0.0"), bid("c", "1.0.0")],
            vec![bid("a", "1.0.0"), bid("d", "1.0.0")],
            vec![bid("a", "1.0.0"), bid("e", "1.0.0")],
        ]
    );
    assert_eq!(result.affected_paths, vec!["/ws/a".to_string()]);
}

#[test]
fn missing_root_aborts() {
    let build = || Snapshot {
        nodes: vec![node(fid("b", "0.2.0", "reg"), vec![])],
        workspace_roots: vec![wroot("a", "1.0.0", "/ws/a")],
    };
    let old_snap = build();
    let new_snap = build();
    let err = diff_resolve(&old_snap, &new_snap, &vec![]).unwrap_err();
    assert_eq!(err, DiffError::MissingRoot(bid("a", "1.0.0")));
}

#[test]
fn dangling_edge_in_old_snapshot_aborts() {
    // The old snapshot's root has an edge to a node the old snapshot does
    // not hold, while the new snapshot still knows it: the walk needs the
    // old node's edges and must abort rather than guess.
    let old_snap = Snapshot {
        nodes: vec![node(
            fid("a", "1.0.0", "reg"),
            vec![fid("b", "0.2.0", "reg")],
        )],
        workspace_roots: vec![wroot("a", "1.0.0", "/ws/a")],
    };
    let new_snap = Snapshot {
        nodes: vec![
            node(fid("a", "1.0.0", "reg"), vec![fid("b", "0.2.0", "reg")]),
            node(fid("b", "0.2.0", "reg"), vec![]),
        ],
        workspace_roots: vec![wroot("a", "1.0.0", "/ws/a")],
    };
    let err = diff_resolve(&old_snap, &new_snap, &vec![]).unwrap_err();
    assert_eq!(err, DiffError::MalformedSnapshot(fid("b", "0.2.0", "reg")));
}

#[test]
fn cycle_reported_not_looped() {
    let build = || Snapshot {
        nodes: vec![
            node(fid("a", "1.0.0", "reg"), vec![fid("b", "0.2.0", "reg")]),
            node(fid("b", "0.2.0", "reg"), vec![fid("a", "1.0.0", "reg")]),
        ],
        workspace_roots: vec![wroot("a", "1.0.0", "/ws/a")],
    };
    let old_snap = build();
    let new_snap = build();
    let err = diff_resolve(&old_snap, &new_snap, &vec![]).unwrap_err();
    assert_eq!(err, DiffError::CycleDetected(fid("a", "1.0.0", "reg")));
}

#[test]
fn trail_head_without_root_entry_aborts_path_resolution() {
    let snap = Snapshot {
        nodes: vec![node(fid("a", "1.0.0", "reg"), vec![])],
        workspace_roots: vec![wroot("a", "1.0.0", "/ws/a")],
    };
    let trails = vec![vec![bid("z", "9.9.9")]];
    let err = resolve_paths(&snap, &trails).unwrap_err();
    assert_eq!(err, DiffError::MissingPathMapping("z".to_string()));
}

#[test]
fn path_lookup_takes_first_entry_with_name() {
    // Path resolution goes by name alone and takes the first entry
    // declared under it.
    let build = || Snapshot {
        nodes: vec![
            node(fid("a", "1.0.0", "reg"), vec![]),
            node(fid("a", "2.0.0", "reg"), vec![]),
        ],
        workspace_roots: vec![
            wroot("a", "1.0.0", "/ws/a-old"),
            wroot("a", "2.0.0", "/ws/a-new"),
        ],
    };
    let old_snap = build();
    let new_snap = build();
    let forced = vec![bid("a", "2.0.0")];
    let result = diff_resolve(&old_snap, &new_snap, &forced).unwrap();
    assert_eq!(result.trails, vec![vec![bid("a", "2.0.0")]]);
    assert_eq!(result.affected_paths, vec!["/ws/a-old".to_string()]);
}

#[test]
fn no_declared_roots_reports_nothing() {
    let build = || Snapshot {
        nodes: vec![node(fid("b", "0.2.0", "reg"), vec![])],
        workspace_roots: vec![],
    };
    let old_snap = build();
    let new_snap = build();
    let result = diff_resolve(&old_snap, &new_snap, &vec![]).unwrap();
    assert_eq!(result.trails, Vec::<Vec<BareId>>::new());
    assert_eq!(result.affected_paths, Vec::<String>::new());
}

#[test]
fn root_gone_in_new_is_its_own_trail() {
    let old_snap = Snapshot {
        nodes: vec![node(fid("a", "1.0.0", "reg"), vec![])],
        workspace_roots: vec![wroot("a", "1.0.0", "/ws/a")],
    };
    let new_snap = Snapshot {
        nodes: vec![],
        workspace_roots: vec![wroot("a", "1.0.0", "/ws/a")],
    };
    let result = diff_resolve(&old_snap, &new_snap, &vec![]).unwrap();
    assert_eq!(result.trails, vec![vec![bid("a", "1.0.0")]]);
    assert_eq!(result.affected_paths, vec!["/ws/a".to_string()]);
}

#[test]
fn root_matching_ignores_source() {
    // Two node instances carry the root's (name, version) under different
    // sources; both count as root nodes, and each is walked on its own.
    let old_snap = Snapshot {
        nodes: vec![
            node(fid("a", "1.0.0", "src-one"), vec![]),
            node(fid("a", "1.0.0", "src-two"), vec![]),
        ],
        workspace_roots: vec![wroot("a", "1.0.0", "/ws/a")],
    };
    let new_snap = Snapshot {
        nodes: vec![node(fid("a", "1.0.0", "src-one"), vec![])],
        workspace_roots: vec![wroot("a", "1.0.0", "/ws/a")],
    };
    let result = diff_resolve(&old_snap, &new_snap, &vec![]).unwrap();
    assert_eq!(result.trails, vec![vec![bid("a", "1.0.0")]]);
    assert_eq!(result.affected_paths, vec!["/ws/a".to_string()]);
}

#[test]
fn strip_source_keeps_name_and_version() {
    let full = fid("serde", "1.0.200", "registry+https://example.invalid/index");
    let bare = strip_source(&full);
    assert_eq!(bare, bid("serde", "1.0.200"));
}
