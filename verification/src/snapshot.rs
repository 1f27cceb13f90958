//! An immutable, fully-resolved dependency graph: a set of identified
//! nodes, each with its dependency edges, plus the declared workspace
//! roots and their filesystem locations.
//!
//! A snapshot is built once by the caller and only read here.  Its
//! mathematical value is the sequence of its nodes and roots; the node
//! relation is summarised by [`node_map`], a map from each node's full
//! identity to the identities of its dependencies.

use vstd::prelude::*;

use crate::ids::BareKey;
use crate::ids::FullKey;
use crate::ids::BareId;
use crate::ids::FullId;
use crate::ids::full_eq;

verus! {

/// Mathematical value of a node: its identity and its dependency edges.
pub ghost struct NodeKey {
    pub id: FullKey,
    pub deps: Seq<FullKey>,
}

/// Mathematical value of a declared workspace root.
pub ghost struct RootKey {
    pub name: Seq<char>,
    pub version: Seq<char>,
    pub url: Seq<char>,
}

/// Mathematical value of a snapshot.
pub ghost struct SnapKey {
    pub nodes: Seq<NodeKey>,
    pub roots: Seq<RootKey>,
}

/// One resolved package instance and its dependency edges.
#[derive(Debug)]
pub struct Node {
    pub id: FullId,
    pub deps: Vec<FullId>,
}

/// A declared workspace root: its `(name, version)` identity and the
/// location of the member, as a local path reference.
#[derive(Debug)]
pub struct WorkspaceRoot {
    pub name: String,
    pub version: String,
    pub url: String,
}

/// One fully-resolved dependency graph, captured at a point in time.
#[derive(Debug)]
pub struct Snapshot {
    pub nodes: Vec<Node>,
    pub workspace_roots: Vec<WorkspaceRoot>,
}

impl View for Node {
    type V = NodeKey;

    open spec fn view(&self) -> NodeKey {
        NodeKey { id: self.id@, deps: self.deps.deep_view() }
    }
}

impl DeepView for Node {
    type V = NodeKey;

    open spec fn deep_view(&self) -> NodeKey {
        self@
    }
}

impl View for WorkspaceRoot {
    type V = RootKey;

    open spec fn view(&self) -> RootKey {
        RootKey { name: self.name@, version: self.version@, url: self.url@ }
    }
}

impl DeepView for WorkspaceRoot {
    type V = RootKey;

    open spec fn deep_view(&self) -> RootKey {
        self@
    }
}

impl View for Snapshot {
    type V = SnapKey;

    open spec fn view(&self) -> SnapKey {
        SnapKey {
            nodes: self.nodes.deep_view(),
            roots: self.workspace_roots.deep_view(),
        }
    }
}

/// No two nodes of the sequence share a full identity.
pub open spec fn unique_node_ids(nodes: Seq<NodeKey>) -> bool {
    forall|i: int, j: int| 0 <= i < j < nodes.len() ==> nodes[i].id != nodes[j].id
}

/// The node relation of a snapshot: each node's full identity, mapped to
/// the identities of its dependencies.
pub open spec fn node_map(nodes: Seq<NodeKey>) -> Map<FullKey, Seq<FullKey>>
    decreases nodes.len(),
{
    if nodes.len() == 0 {
        Map::empty()
    } else {
        node_map(nodes.drop_last()).insert(nodes.last().id, nodes.last().deps)
    }
}

/// The domain of [`node_map`] is finite, no larger than the node count,
/// and holds exactly the identities that occur in the sequence.
pub proof fn lemma_node_map_dom(nodes: Seq<NodeKey>)
    ensures
        node_map(nodes).dom().finite(),
        node_map(nodes).dom().len() <= nodes.len(),
        forall|k: FullKey|
            node_map(nodes).contains_key(k) <==> (exists|i: int|
                0 <= i < nodes.len() && #[trigger] nodes[i].id == k),
    decreases nodes.len(),
{
    if nodes.len() == 0 {
    } else {
        let prefix = nodes.drop_last();
        lemma_node_map_dom(prefix);
        assert forall|k: FullKey| node_map(nodes).contains_key(k) implies (exists|i: int|
            0 <= i < nodes.len() && #[trigger] nodes[i].id == k) by {
            if k == nodes.last().id {
                assert(nodes[nodes.len() - 1].id == k);
            } else {
                let i = choose|i: int| 0 <= i < prefix.len() && #[trigger] prefix[i].id == k;
                assert(nodes[i].id == k);
            }
        }
        assert forall|k: FullKey| (exists|i: int|
            0 <= i < nodes.len() && #[trigger] nodes[i].id == k) implies node_map(
            nodes,
        ).contains_key(k) by {
            let i = choose|i: int| 0 <= i < nodes.len() && #[trigger] nodes[i].id == k;
            if i == nodes.len() - 1 {
            } else {
                assert(prefix[i].id == k);
            }
        }
    }
}

/// In a snapshot with unique identities, [`node_map`] sends each node's
/// identity to exactly that node's dependencies.
pub proof fn lemma_node_map_at(nodes: Seq<NodeKey>, i: int)
    requires
        unique_node_ids(nodes),
        0 <= i < nodes.len(),
    ensures
        node_map(nodes).contains_key(nodes[i].id),
        node_map(nodes)[nodes[i].id] == nodes[i].deps,
    decreases nodes.len(),
{
    if i == nodes.len() - 1 {
    } else {
        let prefix = nodes.drop_last();
        assert(prefix[i] == nodes[i]);
        lemma_node_map_at(prefix, i);
        assert(nodes[i].id != nodes.last().id);
    }
}

impl Snapshot {
    /// A snapshot is well formed when no two of its nodes share an
    /// identity, so that the node relation is a function of the identity.
    pub open spec fn wf(&self) -> bool {
        unique_node_ids(self@.nodes)
    }

    /// Looks a node up by its full identity.
    pub fn find_node<'a>(&'a self, id: &FullId) -> (r: Option<&'a Node>)
        requires
            self.wf(),
        ensures
            match r {
                Some(n) => {
                    &&& node_map(self@.nodes).contains_key(id@)
                    &&& n@.id == id@
                    &&& node_map(self@.nodes)[id@] == n@.deps
                },
                None => !node_map(self@.nodes).contains_key(id@),
            },
    {
        let ghost nodes = self@.nodes;
        let n = self.nodes.len();
        for i in 0..n
            invariant
                n == self.nodes.len(),
                nodes == self@.nodes,
                self.wf(),
                forall|j: int| 0 <= j < i ==> #[trigger] nodes[j].id != id@,
        {
            if full_eq(&self.nodes[i].id, id) {
                proof {
                    lemma_node_map_at(nodes, i as int);
                }
                return Some(&self.nodes[i]);
            }
        }
        proof {
            lemma_node_map_dom(nodes);
        }
        None
    }
}

} // verus!
