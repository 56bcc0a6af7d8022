//! A compressed radix tree over block sequences. Runs of blocks without a
//! branch share one edge, and each node knows how far along its edge every
//! worker holds the blocks.

use vstd::prelude::*;

use crate::collections::{fx_get, fx_hash_keys, FxMap};
use crate::indexer::compressed_radix::{EdgeBlock, NodeState};

pub mod dump;
pub mod events;
pub mod find;
pub mod growth;
pub mod lookup;
pub mod model;
pub mod remove;
pub mod restore;
pub mod store;
pub mod sweep;

use crate::indexer::concurrent_radix_tree_compressed::lookup::rooted;
use crate::indexer::concurrent_radix_tree_compressed::model::{
    has_child, idle, tree_wf, TreeNodeView,
};

verus! {

/// A node of the tree.
struct TreeNode {
    state: NodeState,
    /// The children, by the local hash of their first block.
    children: FxMap<u64, usize>,
    /// Whether the node has or ever had a child. Only other nodes are extended
    /// in place.
    internal: bool,
    /// Number of blocks between the root and this node's edge.
    start: Ghost<nat>,
}

impl TreeNode {
    spec fn model(&self) -> TreeNodeView {
        TreeNodeView {
            edge: self.state@.edge,
            cover: self.state@.cover,
            children: self.children@,
            internal: self.internal,
            start: self.start@,
        }
    }
}

/// A compressed radix tree. Nodes are named by their place in the tree's list;
/// the root is node 0. The places of nodes that were swept are used again.
pub struct ConcurrentRadixTreeCompressed {
    nodes: Vec<TreeNode>,
    /// The places that wait for new nodes.
    spare: Vec<usize>,
}

/// Whether some places are idle, none of them listed twice.
pub open spec fn all_idle(nodes: Seq<TreeNodeView>, places: Seq<usize>) -> bool {
    &&& places.no_duplicates()
    &&& forall|i: int| 0 <= i < places.len() ==> idle(nodes, #[trigger] places[i] as int)
}

/// Where each block hash of a worker leads: to its node, or to a node above
/// which the block was on before a split.
pub type WorkerLookup = FxMap<u64, usize>;

/// Why a cache event could not be applied.
#[derive(Clone, Copy, Debug, PartialEq, Eq, Structural)]
pub enum KvCacheEventError {
    ParentBlockNotFound,
    BlockNotFound,
}

impl View for ConcurrentRadixTreeCompressed {
    type V = Seq<TreeNodeView>;

    closed spec fn view(&self) -> Seq<TreeNodeView> {
        self.nodes@.map_values(|n: TreeNode| n.model())
    }
}

impl ConcurrentRadixTreeCompressed {
    /// The invariant of a tree.
    pub closed spec fn wf(&self) -> bool {
        &&& tree_wf(self@)
        &&& rooted(self@)
        &&& forall|i: int| 0 <= i < self.nodes@.len() ==> (#[trigger] self.nodes@[i]).state.wf()
        &&& all_idle(self@, self.spare@)
    }

    /// The places that wait for new nodes.
    pub closed spec fn spare_places(&self) -> Seq<usize> {
        self.spare@
    }

    /// A well-formed tree's model is well-formed, and its spare places are idle.
    pub proof fn wf_model(&self)
        requires
            self.wf(),
        ensures
            tree_wf(self@),
            rooted(self@),
            all_idle(self@, self.spare_places()),
    {
    }

    /// A tree without blocks.
    pub fn new() -> (tree: Self)
        ensures
            tree.wf(),
            tree@.len() == 1,
            tree@[0].children == Map::<u64, usize>::empty(),
            tree@[0].cover == Map::<(u64, u32), nat>::empty(),
            tree.spare_places() == Seq::<usize>::empty(),
    {
        let mut nodes: Vec<TreeNode> = Vec::new();
        nodes.push(
            TreeNode {
                state: NodeState::empty(),
                children: FxMap::default(),
                internal: true,
                start: Ghost(0),
            },
        );
        ConcurrentRadixTreeCompressed { nodes, spare: Vec::new() }
    }

    /// Number of places for nodes, the root's among them.
    pub fn node_count(&self) -> (n: usize)
        ensures
            n == self@.len(),
    {
        self.nodes.len()
    }

    /// The edge above a node.
    pub fn edge_of(&self, node: usize) -> (edge: &Vec<EdgeBlock>)
        requires
            node < self@.len(),
        ensures
            edge@ == self@[node as int].edge,
    {
        self.nodes[node].state.edge()
    }

    /// The keys of a node's children, in no promised order.
    pub fn child_keys(&self, node: usize) -> (keys: Vec<u64>)
        requires
            node < self@.len(),
        ensures
            keys@.no_duplicates(),
            keys@.to_set() == self@[node as int].children.dom(),
    {
        fx_hash_keys(&self.nodes[node].children)
    }

    /// The child of a node for a key.
    pub fn child(&self, node: usize, key: u64) -> (child: Option<usize>)
        requires
            node < self@.len(),
        ensures
            child is Some <==> has_child(self@, node as int, key),
            child is Some ==> child->0 == self@[node as int].children[key],
    {
        match fx_get(&self.nodes[node].children, &key) {
            Some(child) => Some(*child),
            None => None,
        }
    }
}

} // verus!
