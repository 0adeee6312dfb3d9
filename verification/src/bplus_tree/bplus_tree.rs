//! Node layout and the model of what a tree holds.
//!
//! A tree is an ownership tree: each internal node owns its children, and
//! the leaves, read from left to right, are the leaf chain.

use crate::bplus_tree::entries::ascending;
use crate::bplus_tree::entries::flat;
use crate::bplus_tree::entries::separated;
use crate::bplus_tree::entries::to_map;
use crate::bplus_tree::order::lawful_keys;
use vstd::prelude::*;

verus! {

/// The order of the tree: its branching factor.
pub const B: usize = 3;

/// The fewest keys that a node other than the root holds.
pub const MIN_LEN: usize = B - 1;

/// The most keys that a node holds.
pub const CAPACITY: usize = 2 * B - 1;

/// The most children that an internal node holds.
pub const INTERNAL_CHILDREN_CAPACITY: usize = CAPACITY + 1;

/// A node seen as what it is: a leaf or an internal node.
pub enum ForceResult<Leaf, Internal> {
    Leaf(Leaf),
    Internal(Internal),
}

/// The owned node behind a `NodeRef`.
pub enum BoxedNode<K, V> {
    Leaf(Box<LeafNode<K, V>>),
    Internal(Box<InternalNode<K, V>>),
}

/// A leaf: its keys in ascending order, each with its value.
pub struct LeafNode<K, V> {
    pub keys: Vec<K>,
    pub vals: Vec<V>,
}

/// An internal node: separator keys and one child more than separators.
pub struct InternalNode<K, V> {
    pub keys: Vec<K>,
    pub children: Vec<NodeRef<K, V>>,
}

/// A subtree with its height: a leaf at height 0, and above that an
/// internal node whose children are all one lower.
pub struct NodeRef<K, V> {
    pub height: u16,
    pub node: BoxedNode<K, V>,
}

/// The entry point of a tree: the subtree that is all of it. Its node may
/// hold fewer than the minimum.
pub struct Root<K, V> {
    pub root: NodeRef<K, V>,
}

/// An ordered map from keys to values, kept as a B+ tree.
pub struct BPlusTree<K, V> {
    pub(crate) root: Root<K, V>,
    pub(crate) length: usize,
}

impl<K: Ord + Clone, V> LeafNode<K, V> {
    /// The pairs of the leaf, in order.
    pub open spec fn entries(self) -> Seq<(K, V)> {
        Seq::new(self.keys.len() as nat, |i: int| (self.keys[i], self.vals[i]))
    }

    /// The leaf holds a value for each key, no more keys than fit, and
    /// its keys ascend.
    pub open spec fn wf(self) -> bool {
        &&& self.keys.len() == self.vals.len()
        &&& self.keys.len() <= CAPACITY
        &&& ascending(self.keys@)
    }
}

/// What each of `children` holds, child by child.
pub open spec fn parts_of<K: Ord + Clone, V>(children: Seq<NodeRef<K, V>>) -> Seq<Seq<(K, V)>>
    decreases children, 0nat,
{
    Seq::new(
        children.len(),
        |j: int|
            if 0 <= j < children.len() {
                children[j].entries()
            } else {
                Seq::empty()
            },
    )
}

/// The children of one node, with the separators between them: one child
/// more than separators, every child well formed and of one height, and
/// the separators part what the children hold.
pub open spec fn siblings_wf<K: Ord + Clone, V>(keys: Seq<K>, children: Seq<NodeRef<K, V>>) -> bool
    decreases children, 0nat,
{
    &&& children.len() == keys.len() + 1
    &&& forall|j: int|
        0 <= j < children.len() ==> {
            let c = #[trigger] children[j];
            c.wf() && c.height == children[0].height
        }
    &&& separated(keys, parts_of(children))
}

/// Every one of `children` holds at least the minimum.
pub open spec fn all_filled<K: Ord + Clone, V>(children: Seq<NodeRef<K, V>>) -> bool {
    forall|j: int| 0 <= j < children.len() ==> (#[trigger] children[j]).filled()
}

impl<K: Ord + Clone, V> InternalNode<K, V> {
    /// The pairs below this node, in order.
    pub open spec fn entries(self) -> Seq<(K, V)>
        decreases self, 1nat,
    {
        flat(parts_of(self.children@))
    }

    /// A well-formed internal node: well-formed and filled children, no
    /// more than fit, and not so high that a parent could not count its
    /// height.
    pub open spec fn wf(self) -> bool
        decreases self, 1nat,
    {
        &&& siblings_wf(self.keys@, self.children@)
        &&& all_filled(self.children@)
        &&& self.children.len() <= INTERNAL_CHILDREN_CAPACITY
        &&& self.children[0].height < u16::MAX
    }
}

impl<K: Ord + Clone, V> NodeRef<K, V> {
    /// The pairs of the subtree, in ascending order of their keys.
    pub open spec fn entries(self) -> Seq<(K, V)>
        decreases self, 2nat,
    {
        match self.node {
            BoxedNode::Leaf(leaf) => leaf.entries(),
            BoxedNode::Internal(node) => node.entries(),
        }
    }

    /// The subtree is well formed: a leaf at height 0, or an internal node
    /// one higher than its children.
    pub open spec fn wf(self) -> bool
        decreases self, 2nat,
    {
        match self.node {
            BoxedNode::Leaf(leaf) => self.height == 0 && leaf.wf(),
            BoxedNode::Internal(node) => node.wf() && self.height == node.children[0].height + 1,
        }
    }

    /// The occupied slots of the node: keys of a leaf, children of an
    /// internal node.
    pub open spec fn slots(self) -> nat {
        match self.node {
            BoxedNode::Leaf(leaf) => leaf.keys.len() as nat,
            BoxedNode::Internal(node) => node.children.len() as nat,
        }
    }

    /// The two subtrees are alike node by node: the same heights, and in
    /// each node the same keys, values and number of children.
    pub open spec fn same_tree(self, other: Self) -> bool
        decreases self,
    {
        &&& self.height == other.height
        &&& match (self.node, other.node) {
            (BoxedNode::Leaf(a), BoxedNode::Leaf(b)) => a.keys@ == b.keys@ && a.vals@ == b.vals@,
            (BoxedNode::Internal(a), BoxedNode::Internal(b)) => {
                &&& a.keys@ == b.keys@
                &&& a.children.len() == b.children.len()
                &&& forall|j: int|
                    0 <= j < a.children.len() ==> (#[trigger] a.children[j]).same_tree(
                        b.children[j],
                    )
            },
            _ => false,
        }
    }

    /// The two subtrees have one shape and the same keys: the same
    /// heights, and in each node the same keys and number of children.
    /// Only the values may differ.
    pub open spec fn same_keys(self, other: Self) -> bool
        decreases self,
    {
        &&& self.height == other.height
        &&& match (self.node, other.node) {
            (BoxedNode::Leaf(a), BoxedNode::Leaf(b)) => a.keys@ == b.keys@ && a.vals.len()
                == b.vals.len(),
            (BoxedNode::Internal(a), BoxedNode::Internal(b)) => {
                &&& a.keys@ == b.keys@
                &&& a.children.len() == b.children.len()
                &&& forall|j: int|
                    0 <= j < a.children.len() ==> (#[trigger] a.children[j]).same_keys(
                        b.children[j],
                    )
            },
            _ => false,
        }
    }

    /// The number of keys in the node itself: the keys of a leaf, the
    /// separators of an internal node.
    pub open spec fn key_count(self) -> nat {
        match self.node {
            BoxedNode::Leaf(leaf) => leaf.keys.len() as nat,
            BoxedNode::Internal(node) => node.keys.len() as nat,
        }
    }

    /// The most slots that the node may occupy.
    pub open spec fn room(self) -> nat {
        match self.node {
            BoxedNode::Leaf(leaf) => CAPACITY as nat,
            BoxedNode::Internal(node) => INTERNAL_CHILDREN_CAPACITY as nat,
        }
    }

    /// The node holds at least one less than the minimum: what a deletion
    /// can leave of a filled node.
    pub open spec fn nearly_filled(self) -> bool {
        match self.node {
            BoxedNode::Leaf(leaf) => leaf.keys.len() + 1 >= MIN_LEN,
            BoxedNode::Internal(node) => node.children.len() >= MIN_LEN,
        }
    }

    /// The node holds at least the minimum that a node other than the root
    /// must hold.
    pub open spec fn filled(self) -> bool {
        match self.node {
            BoxedNode::Leaf(leaf) => leaf.keys.len() >= MIN_LEN,
            BoxedNode::Internal(node) => node.children.len() >= MIN_LEN + 1,
        }
    }
}

impl<K: Ord + Clone, V> LeafNode<K, V> {
    /// An empty leaf.
    pub fn new() -> (leaf: Self)
        ensures
            leaf.wf(),
            leaf.entries() == Seq::<(K, V)>::empty(),
    {
        let leaf = LeafNode { keys: Vec::new(), vals: Vec::new() };
        assert(leaf.entries() =~= Seq::<(K, V)>::empty());
        leaf
    }

    /// The number of keys in the leaf.
    pub fn length(&self) -> (n: usize)
        ensures
            n == self.keys.len(),
            self.wf() ==> n == self.entries().len(),
    {
        self.keys.len()
    }
}

impl<K: Ord + Clone, V> InternalNode<K, V> {
    /// An internal node without separators or children, to be filled by
    /// the caller.
    pub fn new() -> (node: Self)
        ensures
            node.keys@ == Seq::<K>::empty(),
            node.children@ == Seq::<NodeRef<K, V>>::empty(),
    {
        InternalNode { keys: Vec::new(), children: Vec::new() }
    }

    /// The number of children of the node.
    pub fn length(&self) -> (n: usize)
        ensures
            n == self.children.len(),
    {
        self.children.len()
    }
}

impl<K: Ord + Clone, V> BoxedNode<K, V> {
    /// The owned node that holds `node`.
    pub fn from_leaf(node: Box<LeafNode<K, V>>) -> (boxed: Self)
        ensures
            boxed == BoxedNode::Leaf(node),
    {
        BoxedNode::Leaf(node)
    }

    /// The owned node that holds `node`.
    pub fn from_internal(node: Box<InternalNode<K, V>>) -> (boxed: Self)
        ensures
            boxed == BoxedNode::Internal(node),
    {
        BoxedNode::Internal(node)
    }
}

impl<K: Ord + Clone, V> NodeRef<K, V> {
    /// A subtree that is the one leaf behind `boxednode`, at height 0.
    pub fn from_boxed_node(boxednode: BoxedNode<K, V>) -> (node: Self)
        ensures
            node.height == 0,
            node.node == boxednode,
    {
        NodeRef { height: 0, node: boxednode }
    }

    /// The node as what it is. In a well-formed subtree it is a leaf
    /// exactly at height 0.
    pub fn force(&self) -> (r: ForceResult<&LeafNode<K, V>, &InternalNode<K, V>>)
        ensures
            match r {
                ForceResult::Leaf(leaf) => self.node == BoxedNode::Leaf(Box::new(*leaf)),
                ForceResult::Internal(node) => self.node == BoxedNode::Internal(Box::new(*node)),
            },
            self.wf() ==> (r is Leaf <==> self.height == 0),
    {
        match &self.node {
            BoxedNode::Leaf(leaf) => ForceResult::Leaf(&**leaf),
            BoxedNode::Internal(node) => ForceResult::Internal(&**node),
        }
    }

    /// The number of keys in the node itself: the keys of a leaf, the
    /// separators of an internal node.
    pub fn length(&self) -> (n: usize)
        ensures
            n == self.key_count(),
    {
        match &self.node {
            BoxedNode::Leaf(leaf) => leaf.keys.len(),
            BoxedNode::Internal(node) => node.keys.len(),
        }
    }

    /// The height of the subtree: 0 for a leaf.
    pub fn height(&self) -> (h: u16)
        ensures
            h == self.height,
    {
        self.height
    }
}

impl<K: Ord + Clone, V> Root<K, V> {
    /// The pairs of the tree, in ascending order of their keys.
    pub open spec fn entries(self) -> Seq<(K, V)> {
        self.root.entries()
    }

    /// The tree below the root is well formed.
    pub open spec fn wf(self) -> bool {
        self.root.wf()
    }

    /// The root of an empty tree: one empty leaf at height 0.
    pub fn new() -> (root: Self)
        ensures
            root.wf(),
            root.entries() == Seq::<(K, V)>::empty(),
            root.root.height == 0,
    {
        let leaf = Box::new(LeafNode::new());
        Root { root: NodeRef::from_boxed_node(BoxedNode::from_leaf(leaf)) }
    }
}

impl<K: Ord + Clone, V> View for BPlusTree<K, V> {
    type V = Map<K, V>;

    /// The tree as a map from keys to values.
    open spec fn view(&self) -> Map<K, V> {
        to_map(self.entries())
    }
}

impl<K: Ord + Clone, V> BPlusTree<K, V> {
    /// The pairs of the tree in the order of the leaf chain, which is the
    /// ascending order of their keys.
    pub open(crate) spec fn entries(self) -> Seq<(K, V)> {
        self.root.entries()
    }

    /// The root node of the tree.
    pub open(crate) spec fn root_node(self) -> NodeRef<K, V> {
        self.root.root
    }

    /// The height of the tree: 0 while the root is a leaf.
    pub open(crate) spec fn tree_height(self) -> nat {
        self.root.root.height as nat
    }

    /// The two trees are alike node by node and count the same pairs.
    pub open(crate) spec fn same_as(self, other: Self) -> bool {
        self.length == other.length && self.root.root.same_tree(other.root.root)
    }

    /// The invariant of the tree: its keys are lawfully ordered, every node
    /// is well formed, all leaves are at one depth, every node but the root
    /// holds at least the minimum, and the count of pairs is kept.
    pub open(crate) spec fn wf(self) -> bool {
        &&& lawful_keys::<K>()
        &&& self.root.wf()
        &&& self.length == self.root.entries().len()
    }

    /// An empty tree.
    pub fn new() -> (tree: Self)
        requires
            lawful_keys::<K>(),
        ensures
            tree.wf(),
            tree.entries() == Seq::<(K, V)>::empty(),
            tree@ == Map::<K, V>::empty(),
            tree.tree_height() == 0,
    {
        let tree = BPlusTree { root: Root::new(), length: 0 };
        assert(tree@ =~= Map::<K, V>::empty());
        tree
    }

    /// The number of pairs in the tree.
    pub fn len(&self) -> (n: usize)
        requires
            self.wf(),
        ensures
            n == self.entries().len(),
    {
        self.length
    }

    /// The height of the tree: 0 while the root is a leaf.
    pub fn height(&self) -> (h: u16)
        requires
            self.wf(),
        ensures
            h == self.tree_height(),
    {
        self.root.root.height
    }

    /// The root node of the tree, for inspection.
    pub fn root(&self) -> (node: &NodeRef<K, V>)
        requires
            self.wf(),
        ensures
            *node == self.root_node(),
            node.wf(),
            node.entries() == self.entries(),
            node.height == self.tree_height(),
    {
        &self.root.root
    }
}

} // verus!
