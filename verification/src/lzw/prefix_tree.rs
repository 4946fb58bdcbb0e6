//! The dictionary of the encoder: a tree in which every node stands for a
//! phrase and every edge for the byte that extends it.
use vstd::prelude::*;
use std::collections::HashMap;
use crate::lzw::MAX_DICT_SIZE;

verus! {

broadcast use vstd::std_specs::hash::group_hash_axioms;

/// A tree as a mathematical value: for every node, the nodes that its
/// edges lead to.
pub type TreeView = Seq<Map<u8, usize>>;

/// The tree with one node for each byte value and no edges.
pub open spec fn initial_tree() -> TreeView {
    Seq::new(256, |i: int| Map::empty())
}

/// The tree has a node for each byte value, no more nodes than a
/// dictionary takes, and edges only to its own nodes.
pub open spec fn tree_wf(tree: TreeView) -> bool {
    &&& 256 <= tree.len() <= MAX_DICT_SIZE
    &&& forall|node: int, byte: u8|
        0 <= node < tree.len() && #[trigger] tree[node].contains_key(byte) ==> tree[node][byte]
            < tree.len()
}

/// The tree with a new node, reached from `from` by `byte`; the tree
/// itself if it is full.
pub open spec fn grown(tree: TreeView, from: int, byte: u8) -> TreeView {
    if tree.len() >= MAX_DICT_SIZE {
        tree
    } else {
        tree.push(Map::empty()).update(from, tree[from].insert(byte, tree.len() as usize))
    }
}

/// Growing a well-formed tree leaves it well-formed.
pub proof fn lemma_grown_wf(tree: TreeView, from: int, byte: u8)
    requires
        tree_wf(tree),
        0 <= from < tree.len(),
    ensures
        tree_wf(grown(tree, from, byte)),
{
    let after = grown(tree, from, byte);
    if tree.len() < MAX_DICT_SIZE {
        assert forall|node: int, b: u8|
            0 <= node < after.len() && #[trigger] after[node].contains_key(b) implies after[node][b]
            < after.len() by {
            if node == from {
                if b != byte {
                    assert(tree[node].contains_key(b));
                }
            } else if node < tree.len() {
                assert(tree[node].contains_key(b));
            }
        }
    }
}

/// A node of the tree.
pub struct PrefixNode {
    children: HashMap<u8, usize>,
}

impl PrefixNode {
    /// The nodes that the edges of this node lead to.
    pub closed spec fn edges(&self) -> Map<u8, usize> {
        self.children@
    }

    /// A node without edges.
    pub fn new() -> (node: Self)
        ensures
            node.edges() == Map::<u8, usize>::empty(),
    {
        Self { children: HashMap::new() }
    }
}

/// The dictionary of the encoder.
pub struct PrefixTree {
    buffer: Vec<PrefixNode>,
}

impl View for PrefixTree {
    type V = TreeView;

    closed spec fn view(&self) -> TreeView {
        Seq::new(self.buffer@.len(), |i: int| self.buffer@[i].edges())
    }
}

impl PrefixTree {
    /// The tree with one node for each byte value.
    pub fn new() -> (tree: Self)
        ensures
            tree@ == initial_tree(),
    {
        let mut buf: Vec<PrefixNode> = Vec::new();
        let mut i: usize = 0;
        while i < 256
            invariant
                i <= 256,
                buf@.len() == i,
                forall|k: int| 0 <= k < i ==> #[trigger] buf@[k].edges() == Map::<u8, usize>::empty(),
            decreases 256 - i,
        {
            buf.push(PrefixNode::new());
            i = i + 1;
        }
        let tree = Self { buffer: buf };
        assert(tree@ =~= initial_tree());
        tree
    }

    /// The node that the edge for `char` leads to from the node `from`, if
    /// there is such an edge.
    pub fn travel(&self, from: usize, char: u8) -> (dest: Option<usize>)
        requires
            from < self@.len(),
        ensures
            dest == (if self@[from as int].contains_key(char) {
                Some(self@[from as int][char])
            } else {
                None
            }),
    {
        let node = &self.buffer[from];
        match node.children.get(&char) {
            Some(dest) => Some(*dest),
            None => None,
        }
    }

    /// Adds a node and an edge for `char` that leads to it from the node
    /// `from`, and returns the new node. A full tree stays as it is, and
    /// `from` is returned.
    pub fn append(&mut self, from: usize, char: u8) -> (id: usize)
        requires
            from < old(self)@.len(),
        ensures
            final(self)@ == grown(old(self)@, from as int, char),
            id == (if old(self)@.len() >= MAX_DICT_SIZE {
                from
            } else {
                old(self)@.len() as usize
            }),
    {
        if self.buffer.len() >= MAX_DICT_SIZE {
            return from;
        }
        let new_node = PrefixNode::new();
        let id = self.buffer.len();
        self.buffer.push(new_node);
        let src_node = &mut self.buffer[from];
        src_node.children.insert(char, id);
        assert(self@ =~= grown(old(self)@, from as int, char));
        id
    }
}

impl Default for PrefixTree {
    fn default() -> (tree: Self)
        ensures
            tree@ == initial_tree(),
    {
        Self::new()
    }
}

impl Default for PrefixNode {
    fn default() -> (node: Self)
        ensures
            node.edges() == Map::<u8, usize>::empty(),
    {
        Self::new()
    }
}

} // verus!
