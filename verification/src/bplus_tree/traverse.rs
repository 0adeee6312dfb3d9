//! Ordered traversal: the keys and the values of a tree, read off its
//! leaves from left to right.

use crate::bplus_tree::bplus_tree::parts_of;
use crate::bplus_tree::bplus_tree::BPlusTree;
use crate::bplus_tree::bplus_tree::BoxedNode;
use crate::bplus_tree::bplus_tree::InternalNode;
use crate::bplus_tree::bplus_tree::LeafNode;
use crate::bplus_tree::bplus_tree::NodeRef;
use crate::bplus_tree::entries::flat;
use crate::bplus_tree::entries::keys_of;
use crate::bplus_tree::entries::lemma_flat_concat;
use crate::bplus_tree::entries::lemma_flat_single;
use crate::bplus_tree::entries::vals_of;
use crate::bplus_tree::order::duplicate;
use crate::bplus_tree::order::lawful_keys;
use vstd::prelude::*;

verus! {

/// Each value of `out` is a clone of the value at the same place in `vals`.
pub open spec fn clones_of<V: Clone>(vals: Seq<V>, out: Seq<V>) -> bool {
    &&& out.len() == vals.len()
    &&& forall|i: int| 0 <= i < vals.len() ==> cloned::<V>(#[trigger] vals[i], out[i])
}

impl<K: Ord + Clone, V> LeafNode<K, V> {
    /// The keys of the leaf, in order.
    pub fn traverse_keys(&self) -> (out: Vec<K>)
        requires
            lawful_keys::<K>(),
            self.wf(),
        ensures
            out@ == keys_of(self.entries()),
    {
        let mut out: Vec<K> = Vec::new();
        let mut i: usize = 0;
        while i < self.keys.len()
            invariant
                lawful_keys::<K>(),
                i <= self.keys.len(),
                out@ == self.keys@.subrange(0, i as int),
            decreases self.keys.len() - i,
        {
            out.push(duplicate(&self.keys[i]));
            i += 1;
            assert(out@ =~= self.keys@.subrange(0, i as int));
        }
        assert(out@ =~= keys_of(self.entries()));
        out
    }
}

impl<K: Ord + Clone, V: Clone> LeafNode<K, V> {
    /// Clones of the values of the leaf, in the order of their keys.
    pub fn traverse_values(&self) -> (out: Vec<V>)
        requires
            self.wf(),
        ensures
            clones_of(vals_of(self.entries()), out@),
    {
        let mut out: Vec<V> = Vec::new();
        let mut i: usize = 0;
        while i < self.vals.len()
            invariant
                self.wf(),
                i <= self.vals.len(),
                out.len() == i,
                forall|t: int| 0 <= t < i ==> cloned::<V>(#[trigger] self.vals@[t], out@[t]),
            decreases self.vals.len() - i,
        {
            let v = self.vals[i].clone();
            out.push(v);
            i += 1;
        }
        assert(vals_of(self.entries()) =~= self.vals@);
        out
    }
}

impl<K: Ord + Clone, V> InternalNode<K, V> {
    /// The keys below this node, child by child from left to right.
    pub fn traverse_keys(&self) -> (out: Vec<K>)
        requires
            lawful_keys::<K>(),
            self.wf(),
        ensures
            out@ == keys_of(self.entries()),
        decreases self, 0nat,
    {
        let mut out: Vec<K> = Vec::new();
        let mut i: usize = 0;
        let ghost parts = parts_of(self.children@);
        assert(flat(parts.subrange(0, 0)) =~= Seq::<(K, V)>::empty());
        while i < self.children.len()
            invariant
                lawful_keys::<K>(),
                self.wf(),
                parts == parts_of(self.children@),
                i <= self.children.len(),
                out@ == keys_of(flat(parts.subrange(0, i as int))),
            decreases self.children.len() - i,
        {
            let mut more = self.children[i].traverse_keys();
            proof {
                let upto = parts.subrange(0, i + 1);
                assert(upto.drop_last() =~= parts.subrange(0, i as int));
                assert(upto.last() == parts[i as int]);
                assert(keys_of(flat(upto)) =~= out@ + more@);
            }
            out.append(&mut more);
            i += 1;
        }
        assert(parts.subrange(0, i as int) =~= parts);
        out
    }
}

impl<K: Ord + Clone, V: Clone> InternalNode<K, V> {
    /// Clones of the values below this node, in the order of their keys.
    pub fn traverse_values(&self) -> (out: Vec<V>)
        requires
            self.wf(),
        ensures
            clones_of(vals_of(self.entries()), out@),
        decreases self, 0nat,
    {
        let mut out: Vec<V> = Vec::new();
        let mut i: usize = 0;
        let ghost parts = parts_of(self.children@);
        assert(flat(parts.subrange(0, 0)) =~= Seq::<(K, V)>::empty());
        while i < self.children.len()
            invariant
                self.wf(),
                parts == parts_of(self.children@),
                i <= self.children.len(),
                clones_of(vals_of(flat(parts.subrange(0, i as int))), out@),
            decreases self.children.len() - i,
        {
            let mut more = self.children[i].traverse_values();
            proof {
                let upto = parts.subrange(0, i + 1);
                let sofar = flat(parts.subrange(0, i as int));
                assert(upto.drop_last() =~= parts.subrange(0, i as int));
                assert(upto.last() == parts[i as int]);
                assert(vals_of(flat(upto)) =~= vals_of(sofar) + vals_of(parts[i as int]));
                let next = out@ + more@;
                assert forall|t: int| 0 <= t < next.len() implies cloned::<V>(
                    #[trigger] vals_of(flat(upto))[t],
                    next[t],
                ) by {
                    if t < out@.len() {
                        assert(vals_of(flat(upto))[t] == vals_of(sofar)[t]);
                    } else {
                        assert(vals_of(flat(upto))[t] == vals_of(parts[i as int])[t - out@.len()]);
                    }
                }
            }
            out.append(&mut more);
            i += 1;
        }
        assert(parts.subrange(0, i as int) =~= parts);
        out
    }
}

impl<K: Ord + Clone, V> NodeRef<K, V> {
    /// The keys of the subtree, in ascending order.
    pub fn traverse_keys(&self) -> (out: Vec<K>)
        requires
            lawful_keys::<K>(),
            self.wf(),
        ensures
            out@ == keys_of(self.entries()),
        decreases self, 1nat,
    {
        match &self.node {
            BoxedNode::Leaf(leaf) => leaf.traverse_keys(),
            BoxedNode::Internal(node) => node.traverse_keys(),
        }
    }
}

impl<K: Ord + Clone, V: Clone> NodeRef<K, V> {
    /// Clones of the values of the subtree, in the order of their keys.
    pub fn traverse_values(&self) -> (out: Vec<V>)
        requires
            self.wf(),
        ensures
            clones_of(vals_of(self.entries()), out@),
        decreases self, 1nat,
    {
        match &self.node {
            BoxedNode::Leaf(leaf) => leaf.traverse_values(),
            BoxedNode::Internal(node) => node.traverse_values(),
        }
    }
}

impl<K: Ord + Clone, V> BPlusTree<K, V> {
    /// All keys of the tree, in ascending order.
    pub fn keys(&self) -> (out: Vec<K>)
        requires
            self.wf(),
        ensures
            out@ == keys_of(self.entries()),
            out@.len() == self.entries().len(),
    {
        self.root.root.traverse_keys()
    }
}

impl<K: Ord + Clone, V: Clone> BPlusTree<K, V> {
    /// Clones of all values of the tree, in the ascending order of their
    /// keys.
    pub fn values(&self) -> (out: Vec<V>)
        requires
            self.wf(),
        ensures
            clones_of(vals_of(self.entries()), out@),
    {
        self.root.root.traverse_values()
    }
}

/// Reading a concatenation backward is reading its second part backward
/// and then its first.
pub proof fn lemma_reverse_concat<T>(a: Seq<T>, b: Seq<T>)
    ensures
        (a + b).reverse() == b.reverse() + a.reverse(),
{
    let l = (a + b).reverse();
    let r = b.reverse() + a.reverse();
    assert(l.len() == r.len());
    assert forall|i: int| 0 <= i < l.len() implies l[i] == r[i] by {
        if i < b.len() {
            assert(l[i] == (a + b)[a.len() + b.len() - 1 - i]);
            assert(r[i] == b.reverse()[i]);
        } else {
            assert(l[i] == (a + b)[a.len() + b.len() - 1 - i]);
            assert(r[i] == a.reverse()[i - b.len()]);
        }
    }
    assert(l =~= r);
}

impl<K: Ord + Clone, V> LeafNode<K, V> {
    /// The keys of the leaf, from the last to the first.
    pub fn traverse_keys_backward(&self) -> (out: Vec<K>)
        requires
            lawful_keys::<K>(),
            self.wf(),
        ensures
            out@ == keys_of(self.entries()).reverse(),
    {
        let mut out: Vec<K> = Vec::new();
        let n = self.keys.len();
        let mut i: usize = n;
        while i > 0
            invariant
                lawful_keys::<K>(),
                n == self.keys.len(),
                i <= n,
                out@.len() == n - i,
                forall|t: int| 0 <= t < out@.len() ==> out@[t] == self.keys@[n - 1 - t],
            decreases i,
        {
            i -= 1;
            out.push(duplicate(&self.keys[i]));
        }
        assert(out@ =~= keys_of(self.entries()).reverse());
        out
    }
}

impl<K: Ord + Clone, V> InternalNode<K, V> {
    /// The keys below this node, child by child from right to left.
    pub fn traverse_keys_backward(&self) -> (out: Vec<K>)
        requires
            lawful_keys::<K>(),
            self.wf(),
        ensures
            out@ == keys_of(self.entries()).reverse(),
        decreases self, 0nat,
    {
        let mut out: Vec<K> = Vec::new();
        let n = self.children.len();
        let mut i: usize = n;
        let ghost parts = parts_of(self.children@);
        proof {
            assert(parts.subrange(n as int, n as int) =~= Seq::<Seq<(K, V)>>::empty());
            assert(keys_of(flat(parts.subrange(n as int, n as int))).reverse() =~= Seq::<
                K,
            >::empty());
        }
        while i > 0
            invariant
                lawful_keys::<K>(),
                self.wf(),
                parts == parts_of(self.children@),
                n == self.children.len(),
                i <= n,
                out@ == keys_of(flat(parts.subrange(i as int, n as int))).reverse(),
            decreases i,
        {
            i -= 1;
            let mut more = self.children[i].traverse_keys_backward();
            proof {
                let rest = parts.subrange(i + 1, n as int);
                let from = parts.subrange(i as int, n as int);
                assert(from =~= seq![parts[i as int]] + rest);
                lemma_flat_concat(seq![parts[i as int]], rest);
                lemma_flat_single(parts[i as int]);
                assert(keys_of(parts[i as int] + flat(rest)) =~= keys_of(parts[i as int])
                    + keys_of(flat(rest)));
                lemma_reverse_concat(keys_of(parts[i as int]), keys_of(flat(rest)));
            }
            out.append(&mut more);
        }
        assert(parts.subrange(0, n as int) =~= parts);
        out
    }
}

impl<K: Ord + Clone, V> NodeRef<K, V> {
    /// The keys of the subtree, in descending order.
    pub fn traverse_keys_backward(&self) -> (out: Vec<K>)
        requires
            lawful_keys::<K>(),
            self.wf(),
        ensures
            out@ == keys_of(self.entries()).reverse(),
        decreases self, 1nat,
    {
        match &self.node {
            BoxedNode::Leaf(leaf) => leaf.traverse_keys_backward(),
            BoxedNode::Internal(node) => node.traverse_keys_backward(),
        }
    }
}

impl<K: Ord + Clone, V> BPlusTree<K, V> {
    /// All keys of the tree, read backward along the leaf chain from the
    /// last leaf: in descending order.
    pub fn keys_backward(&self) -> (out: Vec<K>)
        requires
            self.wf(),
        ensures
            out@ == keys_of(self.entries()).reverse(),
            out@.len() == self.entries().len(),
    {
        self.root.root.traverse_keys_backward()
    }
}

} // verus!
