//! Point lookup by descent.

use crate::bplus_tree::bplus_tree::BPlusTree;
use crate::bplus_tree::bplus_tree::BoxedNode;
use crate::bplus_tree::bplus_tree::Root;
use crate::bplus_tree::bplus_tree::InternalNode;
use crate::bplus_tree::bplus_tree::LeafNode;
use crate::bplus_tree::bplus_tree::NodeRef;
use crate::bplus_tree::entries::find;
use crate::bplus_tree::entries::is_rank;
use crate::bplus_tree::entries::keys_of;
use crate::bplus_tree::entries::lemma_rank;
use crate::bplus_tree::entries::rank;
use crate::bplus_tree::order::lawful_keys;
use crate::bplus_tree::order::less;
use crate::bplus_tree::order::same;
use crate::bplus_tree::siblings::lemma_descend;
use vstd::prelude::*;

verus! {

/// The first index of `keys` whose key is `key` or orders after it, or the
/// length where there is none. Lookup, insertion and deletion all place a
/// key by this rule, in a leaf and among the separators alike.
pub fn route<K: Ord + Clone>(keys: &Vec<K>, key: &K) -> (p: usize)
    requires
        lawful_keys::<K>(),
    ensures
        p == rank(keys@, *key),
        is_rank(keys@, *key, p as int),
{
    let mut p: usize = 0;
    while p < keys.len() && less(&keys[p], key)
        invariant
            lawful_keys::<K>(),
            p <= keys.len(),
            forall|i: int| 0 <= i < p ==> crate::bplus_tree::order::key_lt(#[trigger] keys@[i], *key),
        decreases keys.len() - p,
    {
        p += 1;
    }
    proof {
        lemma_rank(keys@, *key);
        if p < keys.len() {
            crate::bplus_tree::order::lemma_lt_total(keys@[p as int], *key);
        }
        assert(is_rank(keys@, *key, p as int));
    }
    p
}

impl<K: Ord + Clone, V> LeafNode<K, V> {
    /// The value stored under `key`, if the leaf holds one.
    pub fn get(&self, key: &K) -> (r: Option<&V>)
        requires
            lawful_keys::<K>(),
            self.wf(),
        ensures
            r == match find(self.entries(), *key) {
                Some(v) => Some(&v),
                None => None,
            },
    {
        assert(keys_of(self.entries()) =~= self.keys@);
        let p = route(&self.keys, key);
        if p < self.keys.len() && same(&self.keys[p], key) {
            Some(&self.vals[p])
        } else {
            None
        }
    }
}

impl<K: Ord + Clone, V> InternalNode<K, V> {
    /// The index of the child that `key` belongs to: the first whose
    /// separator is `key` or orders after it, and the last child where
    /// there is none.
    pub fn route(&self, key: &K) -> (i: usize)
        requires
            lawful_keys::<K>(),
        ensures
            i == rank(self.keys@, *key),
            i <= self.keys.len(),
    {
        route(&self.keys, key)
    }

    /// The value stored under `key` below this node, if there is one.
    pub fn get(&self, key: &K) -> (r: Option<&V>)
        requires
            lawful_keys::<K>(),
            self.wf(),
        ensures
            r == match find(self.entries(), *key) {
                Some(v) => Some(&v),
                None => None,
            },
        decreases self, 0nat,
    {
        proof {
            lemma_descend(self.keys@, self.children@, *key);
        }
        let idx = self.route(key);
        self.children[idx].get(key)
    }
}

impl<K: Ord + Clone, V> NodeRef<K, V> {
    /// The value stored under `key` in the subtree, if there is one.
    pub fn get(&self, key: &K) -> (r: Option<&V>)
        requires
            lawful_keys::<K>(),
            self.wf(),
        ensures
            r == match find(self.entries(), *key) {
                Some(v) => Some(&v),
                None => None,
            },
        decreases self, 1nat,
    {
        match &self.node {
            BoxedNode::Leaf(leaf) => leaf.get(key),
            BoxedNode::Internal(node) => node.get(key),
        }
    }
}

impl<K: Ord + Clone, V> Root<K, V> {
    /// The value stored under `key` in the tree, if there is one.
    pub fn get(&self, key: &K) -> (r: Option<&V>)
        requires
            lawful_keys::<K>(),
            self.wf(),
        ensures
            r == match find(self.entries(), *key) {
                Some(v) => Some(&v),
                None => None,
            },
    {
        self.root.get(key)
    }
}

impl<K: Ord + Clone, V> BPlusTree<K, V> {
    /// The value stored under `key`, if there is one. The tree is not
    /// changed.
    pub fn get(&self, key: &K) -> (r: Option<&V>)
        requires
            self.wf(),
        ensures
            r == if self@.contains_key(*key) {
                Some(&self@[*key])
            } else {
                None
            },
    {
        self.root.get(key)
    }
}

} // verus!
