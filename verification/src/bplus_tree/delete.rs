//! Deletion: descent to the leaf, and rebalancing that propagates upward.
//!
//! A node that a deletion leaves with fewer than the minimum is brought
//! back by its parent: the node and a neighbour share their slots evenly
//! where both then hold more than the minimum, and become one node where
//! they would not.

use crate::bplus_tree::bplus_tree::all_filled;
use crate::bplus_tree::bplus_tree::parts_of;
use crate::bplus_tree::bplus_tree::siblings_wf;
use crate::bplus_tree::bplus_tree::BPlusTree;
use crate::bplus_tree::bplus_tree::BoxedNode;
use crate::bplus_tree::bplus_tree::InternalNode;
use crate::bplus_tree::bplus_tree::LeafNode;
use crate::bplus_tree::bplus_tree::NodeRef;
use crate::bplus_tree::bplus_tree::Root;
use crate::bplus_tree::bplus_tree::CAPACITY;
use crate::bplus_tree::bplus_tree::INTERNAL_CHILDREN_CAPACITY;
use crate::bplus_tree::bplus_tree::MIN_LEN;
use crate::bplus_tree::entries::ascending;
use crate::bplus_tree::entries::del;
use crate::bplus_tree::entries::find;
use crate::bplus_tree::entries::flat;
use crate::bplus_tree::entries::holds;
use crate::bplus_tree::entries::keys_of;
use crate::bplus_tree::entries::lemma_del_ascending;
use crate::bplus_tree::entries::lemma_del_bounds;
use crate::bplus_tree::entries::lemma_del_map;
use crate::bplus_tree::entries::lemma_flat_split;
use crate::bplus_tree::entries::lemma_rank;
use crate::bplus_tree::entries::rank;
use crate::bplus_tree::get::route;
use crate::bplus_tree::order::duplicate;
use crate::bplus_tree::order::group_key_order;
use crate::bplus_tree::order::key_le;
use crate::bplus_tree::order::key_lt;
use crate::bplus_tree::order::lawful_keys;
use crate::bplus_tree::order::same;
use crate::bplus_tree::siblings::lemma_cut;
use crate::bplus_tree::siblings::lemma_descend;
use crate::bplus_tree::siblings::lemma_glue;
use crate::bplus_tree::siblings::lemma_merge_pair;
use crate::bplus_tree::siblings::lemma_nonempty;
use crate::bplus_tree::siblings::lemma_pair_ascending;
use crate::bplus_tree::siblings::lemma_rebalance_pair;
use crate::bplus_tree::siblings::lemma_replace_child;
use crate::bplus_tree::siblings::lemma_same_tree_reflexive;
use crate::bplus_tree::siblings::lemma_wf_ascending;
use vstd::prelude::*;

verus! {

broadcast use group_key_order;

/// How a deletion ended at one node.
pub enum DeleteBehavior<K, V> {
    /// The node was left with a single child, which is handed over with
    /// the removed value: the caller puts the child in the node's place.
    RaiseChild(NodeRef<K, V>, V),
    /// The node stays. With it come the number of keys that the node now
    /// holds and the removed value, if the key was there.
    Success(usize, Option<V>),
}

impl<K: Ord + Clone, V> NodeRef<K, V> {
    /// The fewest slots that the node may occupy unless it is the root.
    pub open spec fn min_slots(self) -> nat {
        match self.node {
            BoxedNode::Leaf(leaf) => MIN_LEN as nat,
            BoxedNode::Internal(node) => (MIN_LEN + 1) as nat,
        }
    }

    /// The slots that the node occupies once the pair under `key` is
    /// removed from the subtree and the node keeps its place.
    ///
    /// A leaf loses the slot of the key. An internal node with two
    /// children or more loses a child exactly where the child at the rank
    /// of the key is left with less than the minimum and cannot share
    /// slots with its neighbour: the right one for the first child, the
    /// left one for any other.
    pub open spec fn slots_after_delete(self, key: K) -> nat
        decreases self,
    {
        match self.node {
            BoxedNode::Leaf(leaf) => if holds(leaf.entries(), key) {
                (leaf.keys.len() - 1) as nat
            } else {
                leaf.keys.len() as nat
            },
            BoxedNode::Internal(node) => {
                let i = rank(node.keys@, key);
                let n = node.children.len() as nat;
                if 0 <= i < n && n >= 2 && holds(node.children[i].entries(), key) {
                    let c = node.children[i];
                    let s = c.slots_after_delete(key);
                    let other = if i == 0 {
                        1
                    } else {
                        i - 1
                    };
                    if s >= c.min_slots() || (s + node.children[other].slots()) / 2 > MIN_LEN {
                        n
                    } else {
                        (n - 1) as nat
                    }
                } else {
                    n
                }
            },
        }
    }
}

/// The internal node `b` is the internal node `a` of two children or more
/// once the pair under `key` was removed and the node was settled.
///
/// Where the child at the rank of the key still holds the minimum, only
/// that child changed. Else it and its neighbour, the right one for the
/// first child and the left one for any other, share their slots evenly
/// where each then holds more than the minimum, and the separator between
/// them is the last key of the left one; or the left one takes over the
/// right one, and the separator between them goes.
pub open spec fn delete_settled<K: Ord + Clone, V>(
    a: InternalNode<K, V>,
    b: InternalNode<K, V>,
    key: K,
) -> bool {
    let i = rank(a.keys@, key);
    let c = a.children@[i];
    let s = c.slots_after_delete(key);
    let gone = del(c.entries(), key);
    if s >= c.min_slots() {
        &&& b.keys@ == a.keys@
        &&& b.children.len() == a.children.len()
        &&& forall|j: int| 0 <= j < b.children.len() && j != i ==> b.children@[j] == a.children@[j]
        &&& b.children@[i].entries() == gone
        &&& b.children@[i].slots() == s
    } else {
        let l = if i == 0 {
            0
        } else {
            i - 1
        };
        let sum = if i == 0 {
            s + a.children@[1].slots()
        } else {
            a.children@[l].slots() + s
        };
        let pairs = if i == 0 {
            gone + a.children@[1].entries()
        } else {
            a.children@[l].entries() + gone
        };
        if sum / 2 > MIN_LEN {
            &&& b.children.len() == a.children.len()
            &&& b.children@[l].slots() == sum / 2
            &&& b.children@[l + 1].slots() == sum - sum / 2
            &&& b.children@[l].entries() + b.children@[l + 1].entries() == pairs
            &&& b.keys@ == a.keys@.update(l, b.children@[l].entries().last().0)
            &&& forall|j: int|
                0 <= j < b.children.len() && j != l && j != l + 1 ==> b.children@[j]
                    == a.children@[j]
        } else {
            &&& b.children.len() + 1 == a.children.len()
            &&& b.children@[l].slots() == sum
            &&& b.children@[l].entries() == pairs
            &&& b.keys@ == a.keys@.remove(l)
            &&& forall|j: int| 0 <= j < l ==> b.children@[j] == a.children@[j]
            &&& forall|j: int| l < j < b.children.len() ==> b.children@[j] == a.children@[j + 1]
        }
    }
}

impl<K: Ord + Clone, V> LeafNode<K, V> {
    /// Removes the pair under `key`, if the leaf holds one.
    pub fn delete(&mut self, key: &K) -> (r: DeleteBehavior<K, V>)
        requires
            lawful_keys::<K>(),
            old(self).wf(),
        ensures
            final(self).wf(),
            final(self).entries() == del(old(self).entries(), *key),
            match r {
                DeleteBehavior::Success(count, gone) => {
                    &&& gone == find(old(self).entries(), *key)
                    &&& count == final(self).keys.len()
                    &&& gone is None ==> *final(self) == *old(self)
                    &&& gone is Some ==> final(self).keys.len() + 1 == old(self).keys.len()
                },
                DeleteBehavior::RaiseChild(_, _) => false,
            },
    {
        proof {
            assert(keys_of(self.entries()) =~= self.keys@);
            lemma_rank(self.keys@, *key);
            lemma_del_ascending(self.entries(), *key);
        }
        let p = route(&self.keys, key);
        if p < self.keys.len() && same(&self.keys[p], key) {
            let _ = self.keys.remove(p);
            let gone = self.vals.remove(p);
            assert(self.entries() =~= del(old(self).entries(), *key));
            assert(keys_of(self.entries()) =~= self.keys@);
            DeleteBehavior::Success(self.keys.len(), Some(gone))
        } else {
            DeleteBehavior::Success(self.keys.len(), None)
        }
    }

    /// The largest key of a leaf that holds one.
    pub fn get_largest_key(&self) -> (k: K)
        requires
            lawful_keys::<K>(),
            self.keys.len() > 0,
        ensures
            k == self.keys@.last(),
    {
        duplicate(&self.keys[self.keys.len() - 1])
    }

    /// Shares the pairs of this leaf and of `leaf`, its right neighbour,
    /// evenly between the two, where each then holds more than the minimum.
    /// Says whether it did; where it did not, neither leaf has changed.
    pub fn devide(&mut self, leaf: &mut Self) -> (done: bool)
        requires
            old(self).wf(),
            old(leaf).wf(),
            ascending(keys_of(old(self).entries() + old(leaf).entries())),
        ensures
            done == ((old(self).keys.len() + old(leaf).keys.len()) / 2 > MIN_LEN),
            !done ==> *final(self) == *old(self) && *final(leaf) == *old(leaf),
            done ==> {
                &&& final(self).wf()
                &&& final(leaf).wf()
                &&& final(self).entries() + final(leaf).entries() == old(self).entries() + old(
                    leaf,
                ).entries()
                &&& final(self).keys.len() == (old(self).keys.len() + old(leaf).keys.len()) / 2
                &&& final(self).keys.len() + final(leaf).keys.len() == old(self).keys.len() + old(
                    leaf,
                ).keys.len()
            },
    {
        let length_sum = self.keys.len() + leaf.keys.len();
        if length_sum / 2 <= MIN_LEN {
            return false;
        }
        let ghost all = self.entries() + leaf.entries();
        self.keys.append(&mut leaf.keys);
        self.vals.append(&mut leaf.vals);
        let keys = self.keys.split_off(length_sum / 2);
        let vals = self.vals.split_off(length_sum / 2);
        leaf.keys = keys;
        leaf.vals = vals;
        proof {
            assert(self.entries() + leaf.entries() =~= all);
            assert(self.keys@ =~= keys_of(all).subrange(0, (length_sum / 2) as int));
            assert(leaf.keys@ =~= keys_of(all).subrange(
                (length_sum / 2) as int,
                length_sum as int,
            ));
        }
        true
    }

    /// Takes over the pairs of `leaf`, the right neighbour, after its own.
    pub fn marge(&mut self, leaf: Self)
        requires
            old(self).wf(),
            leaf.wf(),
            old(self).keys.len() + leaf.keys.len() <= CAPACITY,
            ascending(keys_of(old(self).entries() + leaf.entries())),
        ensures
            final(self).wf(),
            final(self).entries() == old(self).entries() + leaf.entries(),
            final(self).keys.len() == old(self).keys.len() + leaf.keys.len(),
    {
        let ghost given = leaf.entries();
        let mut leaf = leaf;
        self.keys.append(&mut leaf.keys);
        self.vals.append(&mut leaf.vals);
        proof {
            assert(self.entries() =~= old(self).entries() + given);
            assert(self.keys@ =~= keys_of(old(self).entries() + given));
        }
    }
}

impl<K: Ord + Clone, V> InternalNode<K, V> {
    /// The largest key below this node: that of its last child.
    pub fn get_largest_key(&self) -> (k: K)
        requires
            lawful_keys::<K>(),
            self.wf(),
        ensures
            self.entries().len() > 0,
            k == self.entries().last().0,
        decreases self, 0nat,
    {
        let last = self.children.len() - 1;
        proof {
            let parts = parts_of(self.children@);
            assert(self.children@[last as int].filled());
            lemma_nonempty(self.children@[last as int]);
            assert(parts.last() == self.children@[last as int].entries());
        }
        self.children[last].get_largest_key()
    }

    /// Shares the children of this node and of `node`, its right
    /// neighbour, evenly between the two, where each then holds more than
    /// the minimum. Says whether it did; where it did not, neither node has
    /// changed.
    ///
    /// The largest key below this node comes down as the separator between
    /// its last child and the first child of `node`; the separator at the
    /// new cut goes.
    pub fn devide(&mut self, node: &mut Self) -> (done: bool)
        requires
            lawful_keys::<K>(),
            old(self).wf(),
            old(node).wf(),
            old(self).children[0].height == old(node).children[0].height,
            ascending(keys_of(old(self).entries() + old(node).entries())),
        ensures
            done == ((old(self).children.len() + old(node).children.len()) / 2 > MIN_LEN),
            !done ==> *final(self) == *old(self) && *final(node) == *old(node),
            done ==> {
                &&& final(self).wf()
                &&& final(node).wf()
                &&& final(self).children[0].height == old(self).children[0].height
                &&& final(node).children[0].height == old(self).children[0].height
                &&& final(self).entries() + final(node).entries() == old(self).entries() + old(
                    node,
                ).entries()
                &&& final(self).children.len() == (old(self).children.len() + old(
                    node,
                ).children.len()) / 2
                &&& final(self).children.len() + final(node).children.len() == old(
                    self,
                ).children.len() + old(node).children.len()
                &&& final(self).children@ + final(node).children@ == old(self).children@ + old(
                    node,
                ).children@
                &&& final(self).keys@ == (old(self).keys@ + seq![old(self).entries().last().0]
                    + old(node).keys@).subrange(0, final(self).children.len() - 1)
                &&& final(node).keys@ == (old(self).keys@ + seq![old(self).entries().last().0]
                    + old(node).keys@).subrange(
                    final(self).children.len() as int,
                    old(self).keys.len() + 1 + old(node).keys.len(),
                )
            },
    {
        let length_sum = self.children.len() + node.children.len();
        if length_sum / 2 <= MIN_LEN {
            return false;
        }
        let half = length_sum / 2;
        let sep = self.get_largest_key();
        proof {
            lemma_joined(self.keys@, self.children@, sep, node.keys@, node.children@);
            lemma_cut(
                self.keys@ + seq![sep] + node.keys@,
                self.children@ + node.children@,
                half - 1,
            );
        }
        let ghost keys = self.keys@ + seq![sep] + node.keys@;
        let ghost children = self.children@ + node.children@;
        self.keys.push(sep);
        self.keys.append(&mut node.keys);
        self.children.append(&mut node.children);
        let right_children = self.children.split_off(half);
        let right_keys = self.keys.split_off(half);
        let _ = self.keys.pop();
        node.keys = right_keys;
        node.children = right_children;
        proof {
            assert(self.keys@ =~= keys.subrange(0, half - 1));
            assert(self.children@ =~= children.subrange(0, half as int));
            assert(node.keys@ =~= keys.subrange(half as int, keys.len() as int));
            assert(node.children@ =~= children.subrange(half as int, children.len() as int));
            assert(self.children@ + node.children@ =~= children);
            assert(children[0] == old(self).children@[0]);
            assert forall|j: int| 0 <= j < self.children.len() implies (
            #[trigger] self.children@[j]).filled() by {
                assert(self.children@[j] == children[j]);
                if j < old(self).children.len() {
                    assert(children[j] == old(self).children@[j]);
                } else {
                    assert(children[j] == old(node).children@[j - old(self).children.len()]);
                }
            }
            assert forall|j: int| 0 <= j < node.children.len() implies (
            #[trigger] node.children@[j]).filled() by {
                assert(node.children@[j] == children[j + half]);
                if j + half < old(self).children.len() {
                    assert(children[j + half] == old(self).children@[j + half]);
                } else {
                    assert(children[j + half] == old(node).children@[j + half - old(
                        self,
                    ).children.len()]);
                }
            }
        }
        true
    }

    /// Takes over the children of `node`, the right neighbour, after its
    /// own, with the largest key below this node as the separator between.
    pub fn marge(&mut self, node: Self)
        requires
            lawful_keys::<K>(),
            old(self).wf(),
            node.wf(),
            old(self).children[0].height == node.children[0].height,
            old(self).children.len() + node.children.len() <= INTERNAL_CHILDREN_CAPACITY,
            ascending(keys_of(old(self).entries() + node.entries())),
        ensures
            final(self).wf(),
            final(self).children[0].height == old(self).children[0].height,
            final(self).entries() == old(self).entries() + node.entries(),
            final(self).children.len() == old(self).children.len() + node.children.len(),
            final(self).children@ == old(self).children@ + node.children@,
            final(self).keys@ == old(self).keys@ + seq![old(self).entries().last().0] + node.keys@,
    {
        let sep = self.get_largest_key();
        proof {
            lemma_joined(self.keys@, self.children@, sep, node.keys@, node.children@);
        }
        let ghost keys = self.keys@ + seq![sep] + node.keys@;
        let ghost children = self.children@ + node.children@;
        let ghost given = node.children@;
        let mut node = node;
        self.keys.push(sep);
        self.keys.append(&mut node.keys);
        self.children.append(&mut node.children);
        proof {
            assert(self.keys@ =~= keys);
            assert(self.children@ =~= children);
            assert(children[0] == old(self).children@[0]);
            assert forall|j: int| 0 <= j < self.children.len() implies (
            #[trigger] self.children@[j]).filled() by {
                if j < old(self).children.len() {
                    assert(children[j] == old(self).children@[j]);
                } else {
                    assert(children[j] == given[j - old(self).children.len()]);
                }
            }
        }
    }
}

/// Two well-formed internal nodes of one height, the right one holding
/// only keys after those of the left one, join under the largest key of
/// the left one.
pub proof fn lemma_joined<K: Ord + Clone, V>(
    k1: Seq<K>,
    c1: Seq<NodeRef<K, V>>,
    sep: K,
    k2: Seq<K>,
    c2: Seq<NodeRef<K, V>>,
)
    requires
        lawful_keys::<K>(),
        siblings_wf(k1, c1),
        siblings_wf(k2, c2),
        all_filled(c1),
        all_filled(c2),
        c1[0].height == c2[0].height,
        flat(parts_of(c1)).len() > 0,
        sep == flat(parts_of(c1)).last().0,
        ascending(keys_of(flat(parts_of(c1)) + flat(parts_of(c2)))),
    ensures
        siblings_wf(k1 + seq![sep] + k2, c1 + c2),
        flat(parts_of(c1 + c2)) == flat(parts_of(c1)) + flat(parts_of(c2)),
{
    let a = flat(parts_of(c1));
    let b = flat(parts_of(c2));
    let both = keys_of(a + b);
    let n = a.len() as int;
    assert((a + b)[n - 1] == a[n - 1]);
    assert(both[n - 1] == sep);
    assert forall|t: int| 0 <= t < a.len() implies key_le((#[trigger] a[t]).0, sep) by {
        assert((a + b)[t] == a[t]);
        assert(both[t] == a[t].0);
    }
    assert forall|t: int| 0 <= t < b.len() implies key_lt(sep, (#[trigger] b[t]).0) by {
        assert((a + b)[n + t] == b[t]);
        assert(both[n + t] == b[t].0);
    }
    assert forall|j: int| 0 <= j < c1.len() implies (#[trigger] c1[j]).entries().len() > 0 by {
        assert(c1[j].filled());
        lemma_nonempty(c1[j]);
    }
    assert forall|j: int| 0 <= j < c2.len() implies (#[trigger] c2[j]).entries().len() > 0 by {
        assert(c2[j].filled());
        lemma_nonempty(c2[j]);
    }
    lemma_glue(k1, c1, sep, k2, c2);
}

impl<K: Ord + Clone, V> NodeRef<K, V> {
    /// The largest key of a subtree that holds a pair.
    pub fn get_largest_key(&self) -> (k: K)
        requires
            lawful_keys::<K>(),
            self.wf(),
            self.slots() >= 1,
        ensures
            self.entries().len() > 0,
            k == self.entries().last().0,
        decreases self, 1nat,
    {
        match &self.node {
            BoxedNode::Leaf(leaf) => leaf.get_largest_key(),
            BoxedNode::Internal(node) => node.get_largest_key(),
        }
    }
}

impl<K: Ord + Clone, V> NodeRef<K, V> {
    /// Shares the slots of this node and of `node`, its right neighbour of
    /// the same height, evenly between the two, where each then holds more
    /// than the minimum. Says whether it did; where it did not, neither
    /// node has changed.
    pub fn devide(&mut self, node: &mut Self) -> (done: bool)
        requires
            lawful_keys::<K>(),
            old(self).wf(),
            old(node).wf(),
            old(self).height == old(node).height,
            ascending(keys_of(old(self).entries() + old(node).entries())),
        ensures
            done == ((old(self).slots() + old(node).slots()) / 2 > MIN_LEN),
            !done ==> *final(self) == *old(self) && *final(node) == *old(node),
            done ==> {
                &&& final(self).wf()
                &&& final(node).wf()
                &&& final(self).height == old(self).height
                &&& final(node).height == old(self).height
                &&& final(self).entries() + final(node).entries() == old(self).entries() + old(
                    node,
                ).entries()
                &&& final(self).slots() == (old(self).slots() + old(node).slots()) / 2
                &&& final(self).slots() + final(node).slots() == old(self).slots() + old(
                    node,
                ).slots()
            },
    {
        match (&mut self.node, &mut node.node) {
            (BoxedNode::Leaf(devided), BoxedNode::Leaf(supplied)) => devided.devide(supplied),
            (BoxedNode::Internal(devided), BoxedNode::Internal(supplied)) => devided.devide(
                supplied,
            ),
            _ => false,
        }
    }

    /// Takes over what `node` holds, the right neighbour of the same
    /// height, after its own.
    pub fn marge(&mut self, node: Self)
        requires
            lawful_keys::<K>(),
            old(self).wf(),
            node.wf(),
            old(self).height == node.height,
            old(self).slots() + node.slots() <= old(self).room(),
            ascending(keys_of(old(self).entries() + node.entries())),
        ensures
            final(self).wf(),
            final(self).height == old(self).height,
            final(self).entries() == old(self).entries() + node.entries(),
            final(self).slots() == old(self).slots() + node.slots(),
    {
        match (&mut self.node, node.node) {
            (BoxedNode::Leaf(marged), BoxedNode::Leaf(given)) => marged.marge(*given),
            (BoxedNode::Internal(marged), BoxedNode::Internal(given)) => marged.marge(*given),
            _ => {},
        }
    }

    /// Removes the pair under `key` from the subtree. Returns the number
    /// of keys that the node of the subtree then holds and the removed
    /// value, or nothing where the key was not there: the subtree is then
    /// unchanged.
    ///
    /// A node that holds two slots or more, or is a leaf, keeps its height
    /// and loses at most one slot. A node with a single child gives way to
    /// that child, and the subtree is one level lower.
    pub fn delete(&mut self, key: &K) -> (r: Option<(usize, V)>)
        requires
            lawful_keys::<K>(),
            old(self).wf(),
        ensures
            final(self).wf(),
            final(self).entries() == del(old(self).entries(), *key),
            match r {
                None => find(old(self).entries(), *key) is None && final(self).same_tree(
                    *old(self),
                ),
                Some((count, gone)) => {
                    &&& find(old(self).entries(), *key) == Some(gone)
                    &&& count == final(self).key_count()
                },
            },
            old(self).slots() >= 2 || old(self).height == 0 ==> {
                &&& final(self).height == old(self).height
                &&& final(self).slots() + 1 >= old(self).slots()
                &&& final(self).slots() == old(self).slots_after_delete(*key)
            },
            final(self).height == old(self).height ==> match (old(self).node, final(self).node) {
                (BoxedNode::Internal(a), BoxedNode::Internal(b)) => r is Some && a.children.len()
                    >= 2 ==> delete_settled(*a, *b, *key),
                _ => true,
            },
            final(self).height == old(self).height || final(self).height + 1 == old(self).height,
            final(self).height + 1 == old(self).height <==> old(self).height > 0 && old(
                self,
            ).slots() == 1 && holds(old(self).entries(), *key),
        decreases *old(self), 2nat,
    {
        let behavior = match &mut self.node {
            BoxedNode::Leaf(leaf) => leaf.delete(key),
            BoxedNode::Internal(node) => node.delete(key),
        };
        match behavior {
            DeleteBehavior::Success(count, gone) => match gone {
                Some(v) => Some((count, v)),
                None => None,
            },
            DeleteBehavior::RaiseChild(child, gone) => {
                let count = child.length();
                *self = child;
                Some((count, gone))
            },
        }
    }
}

impl<K: Ord + Clone, V> InternalNode<K, V> {
    /// Removes the pair under `key` from the child that `key` belongs to.
    /// Returns the index of that child and what its deletion returned.
    ///
    /// The child may be left with one slot less than the minimum: the node
    /// is then well formed but for that.
    pub fn delete_aux(&mut self, key: &K) -> (r: (usize, Option<(usize, V)>))
        requires
            lawful_keys::<K>(),
            old(self).wf(),
        ensures
            r.0 == rank(old(self).keys@, *key),
            r.0 < old(self).children.len(),
            final(self).keys@ == old(self).keys@,
            final(self).children.len() == old(self).children.len(),
            siblings_wf(final(self).keys@, final(self).children@),
            final(self).children@[0].height == old(self).children@[0].height,
            final(self).entries() == del(old(self).entries(), *key),
            forall|j: int|
                0 <= j < final(self).children.len() && j != r.0 ==> (
                #[trigger] final(self).children@[j]).filled(),
            forall|j: int|
                0 <= j < final(self).children.len() && j != r.0 ==> final(self).children@[j]
                    == old(self).children@[j],
            final(self).children@[r.0 as int].entries() == del(
                old(self).children@[r.0 as int].entries(),
                *key,
            ),
            final(self).children@[r.0 as int].slots() == old(
                self,
            ).children@[r.0 as int].slots_after_delete(*key),
            r.1 is Some <==> holds(old(self).children@[r.0 as int].entries(), *key),
            final(self).children@[r.0 as int].nearly_filled(),
            match r.1 {
                None => {
                    &&& find(old(self).entries(), *key) is None
                    &&& forall|j: int|
                        0 <= j < final(self).children.len() ==> (
                        #[trigger] final(self).children[j]).same_tree(old(self).children[j])
                },
                Some((count, gone)) => {
                    &&& find(old(self).entries(), *key) == Some(gone)
                    &&& count == final(self).children@[r.0 as int].key_count()
                },
            },
        decreases *old(self), 0nat,
    {
        proof {
            lemma_descend(self.keys@, self.children@, *key);
        }
        let idx = route(&self.keys, key);
        let ghost before = self.children@;
        let ghost mid = self.children@[idx as int].entries();
        assert(before[idx as int].filled());
        let ret = self.children[idx].delete(key);
        proof {
            let now = self.children@[idx as int];
            lemma_del_bounds(mid, *key);
            lemma_replace_child(self.keys@, before, idx as int, now);
            assert(self.children@ =~= before.update(idx as int, now));
            assert forall|j: int| 0 <= j < self.children.len() && j != idx implies (
            #[trigger] self.children@[j]).filled() by {
                assert(self.children@[j] == before[j]);
            }
            if ret is None {
                assert forall|j: int| 0 <= j < self.children.len() implies (
                #[trigger] self.children[j]).same_tree(old(self).children[j]) by {
                    if j != idx {
                        assert(self.children@[j] == before[j]);
                        lemma_same_tree_reflexive(before[j]);
                    }
                }
            }
        }
        (idx, ret)
    }

    /// Brings the children at `l` and `l + 1` back to the minimum, one of
    /// which holds one slot less: they share their slots evenly where each
    /// then holds more than the minimum, and the separator between them
    /// becomes the largest key of the left one; else the left one takes
    /// over the right one, and the separator between them goes.
    pub fn devide_or_marge(&mut self, l: usize)
        requires
            lawful_keys::<K>(),
            siblings_wf(old(self).keys@, old(self).children@),
            old(self).children.len() <= INTERNAL_CHILDREN_CAPACITY,
            old(self).children@[0].height < u16::MAX,
            l + 1 < old(self).children.len(),
            forall|j: int|
                0 <= j < old(self).children.len() && j != l && j != l + 1 ==> (
                #[trigger] old(self).children@[j]).filled(),
            old(self).children@[l as int].nearly_filled(),
            old(self).children@[l + 1].nearly_filled(),
            old(self).children@[l as int].filled() || old(self).children@[l + 1].filled(),
        ensures
            final(self).wf(),
            final(self).entries() == old(self).entries(),
            final(self).children.len() == old(self).children.len() || final(self).children.len()
                + 1 == old(self).children.len(),
            final(self).children@[0].height == old(self).children@[0].height,
            ({
                let a = old(self).children@[l as int];
                let b = old(self).children@[l + 1];
                let now = final(self).children@;
                if (a.slots() + b.slots()) / 2 > MIN_LEN {
                    &&& now.len() == old(self).children.len()
                    &&& now[l as int].slots() == (a.slots() + b.slots()) / 2
                    &&& now[l as int].slots() + now[l + 1].slots() == a.slots() + b.slots()
                    &&& now[l as int].entries() + now[l + 1].entries() == a.entries()
                        + b.entries()
                    &&& final(self).keys@ == old(self).keys@.update(
                        l as int,
                        now[l as int].entries().last().0,
                    )
                    &&& forall|j: int|
                        0 <= j < now.len() && j != l && j != l + 1 ==> now[j] == old(
                            self,
                        ).children@[j]
                } else {
                    &&& now.len() + 1 == old(self).children.len()
                    &&& now[l as int].entries() == a.entries() + b.entries()
                    &&& now[l as int].slots() == a.slots() + b.slots()
                    &&& final(self).keys@ == old(self).keys@.remove(l as int)
                    &&& forall|j: int| 0 <= j < l ==> now[j] == old(self).children@[j]
                    &&& forall|j: int| l < j < now.len() ==> now[j] == old(self).children@[j + 1]
                }
            }),
    {
        let ghost keys = self.keys@;
        let ghost kids = self.children@;
        proof {
            lemma_pair_ascending(keys, kids, l as int);
            assert(kids[l as int].wf() && kids[l + 1].wf());
            assert(kids[l as int].height == kids[0].height);
            assert(kids[l + 1].height == kids[0].height);
        }
        let mut right = self.children.remove(l + 1);
        let done = self.children[l].devide(&mut right);
        if done {
            proof {
                lemma_nonempty(self.children@[l as int]);
            }
            let sep = self.children[l].get_largest_key();
            let ghost left = self.children@[l as int];
            self.keys[l] = sep;
            self.children.insert(l + 1, right);
            proof {
                lemma_rebalance_pair(keys, kids, l as int, left, right);
                assert(self.keys@ =~= keys.update(l as int, sep));
                assert(self.children@ =~= kids.update(l as int, left).update(l + 1, right));
                assert forall|j: int| 0 <= j < self.children.len() implies (
                #[trigger] self.children@[j]).filled() by {
                    if j != l && j != l + 1 {
                        assert(self.children@[j] == kids[j]);
                    }
                }
            }
        } else {
            self.children[l].marge(right);
            let ghost merged = self.children@[l as int];
            let _ = self.keys.remove(l);
            proof {
                lemma_merge_pair(keys, kids, l as int, merged);
                assert(self.keys@ =~= keys.remove(l as int));
                assert(self.children@ =~= kids.update(l as int, merged).remove(l + 1));
                assert forall|j: int| 0 <= j < self.children.len() implies (
                #[trigger] self.children@[j]).filled() by {
                    if j < l {
                        assert(self.children@[j] == kids[j]);
                    } else if j > l {
                        assert(self.children@[j] == kids[j + 1]);
                    }
                }
            }
        }
    }

    /// Removes the pair under `key` below this node.
    ///
    /// Where the key is not there, nothing changes. Where the node has a
    /// single child, that child is handed over to take the node's place.
    /// Otherwise a child that the deletion left with less than the minimum
    /// is brought back with a neighbour: the right one for the first child,
    /// the left one for any other.
    pub fn delete(&mut self, key: &K) -> (r: DeleteBehavior<K, V>)
        requires
            lawful_keys::<K>(),
            old(self).wf(),
        ensures
            match r {
                DeleteBehavior::Success(count, gone) => {
                    &&& final(self).wf()
                    &&& final(self).entries() == del(old(self).entries(), *key)
                    &&& final(self).children@[0].height == old(self).children@[0].height
                    &&& gone == find(old(self).entries(), *key)
                    &&& count == final(self).keys.len()
                    &&& gone is None ==> {
                        &&& final(self).keys@ == old(self).keys@
                        &&& final(self).children.len() == old(self).children.len()
                        &&& forall|j: int|
                            0 <= j < final(self).children.len() ==> (
                            #[trigger] final(self).children[j]).same_tree(old(self).children[j])
                    }
                    &&& gone is Some ==> old(self).children.len() >= 2
                    &&& final(self).children.len() + 1 >= old(self).children.len()
                    &&& gone is Some ==> delete_settled(*old(self), *final(self), *key)
                    &&& final(self).children.len() == (NodeRef {
                        height: 1,
                        node: BoxedNode::Internal(Box::new(*old(self))),
                    }).slots_after_delete(*key)
                },
                DeleteBehavior::RaiseChild(child, gone) => {
                    &&& old(self).children.len() == 1
                    &&& child.wf()
                    &&& child.height == old(self).children@[0].height
                    &&& child.entries() == del(old(self).entries(), *key)
                    &&& find(old(self).entries(), *key) == Some(gone)
                },
            },
        decreases *old(self), 1nat,
    {
        let (child_idx, ret) = self.delete_aux(key);
        let (child_length, val) = match ret {
            None => {
                return DeleteBehavior::Success(self.keys.len(), None);
            },
            Some(found) => found,
        };
        if self.length() <= 1 {
            proof {
                lemma_flat_split(parts_of(self.children@), 0);
                assert(parts_of(self.children@).subrange(0, 0) =~= Seq::<Seq<(K, V)>>::empty());
                assert(parts_of(self.children@).subrange(1, 1) =~= Seq::<Seq<(K, V)>>::empty());
                assert(self.entries() =~= self.children@[0].entries());
            }
            let raised_node = self.children.remove(child_idx);
            return DeleteBehavior::RaiseChild(raised_node, val);
        }
        let ghost mid = self.children@;
        proof {
            let was = old(self).children@[child_idx as int];
            let child = mid[child_idx as int];
            assert(was.wf() && child.wf());
            assert(child.height == was.height);
            assert(child.min_slots() == was.min_slots());
            assert(child_length < MIN_LEN <==> child.slots() < child.min_slots());
            assert forall|j: int| 0 <= j < mid.len() && j != child_idx implies mid[j] == old(
                self,
            ).children@[j] by {}
        }
        if child_length < MIN_LEN {
            if child_idx == 0 {
                self.devide_or_marge(0);
            } else {
                self.devide_or_marge(child_idx - 1);
            }
        } else {
            proof {
                let child = self.children@[child_idx as int];
                assert(child.wf());
                assert(child.filled());
            }
        }
        DeleteBehavior::Success(self.keys.len(), Some(val))
    }
}

impl<K: Ord + Clone, V> Root<K, V> {
    /// Removes the pair under `key` from the tree and returns its value,
    /// or nothing where the key was not there: the tree is then unchanged.
    ///
    /// Where the root node had a single child, that child becomes the
    /// root, and the tree is one level lower. Nothing else lowers it.
    pub fn delete(&mut self, key: &K) -> (r: Option<V>)
        requires
            lawful_keys::<K>(),
            old(self).wf(),
        ensures
            final(self).wf(),
            r == find(old(self).entries(), *key),
            final(self).entries() == del(old(self).entries(), *key),
            r is None ==> final(self).root.same_tree(old(self).root),
            final(self).root.height == old(self).root.height || final(self).root.height + 1
                == old(self).root.height,
            final(self).root.height + 1 == old(self).root.height <==> old(self).root.height > 0
                && old(self).root.slots() == 1 && holds(old(self).entries(), *key),
            final(self).root.height == old(self).root.height ==> match (
                old(self).root.node,
                final(self).root.node,
            ) {
                (BoxedNode::Internal(a), BoxedNode::Internal(b)) => r is Some && a.children.len()
                    >= 2 ==> delete_settled(*a, *b, *key),
                _ => true,
            },
    {
        match self.root.delete(key) {
            Some((_, value)) => Some(value),
            None => None,
        }
    }
}

impl<K: Ord + Clone, V> BPlusTree<K, V> {
    /// Removes the pair under `key` and returns its value, or nothing
    /// where the key was not there: the tree is then unchanged.
    ///
    /// The tree may bring nodes back to the minimum on the way and may
    /// become one level lower.
    pub fn delete(&mut self, key: &K) -> (r: Option<V>)
        requires
            old(self).wf(),
        ensures
            final(self).wf(),
            final(self)@ == old(self)@.remove(*key),
            r == if old(self)@.contains_key(*key) {
                Some(old(self)@[*key])
            } else {
                None
            },
            final(self).entries() == del(old(self).entries(), *key),
            r is None ==> final(self).same_as(*old(self)),
            final(self).entries().len() == old(self).entries().len() - if old(self)@.contains_key(
                *key,
            ) {
                1int
            } else {
                0int
            },
            final(self).tree_height() == old(self).tree_height() || final(self).tree_height() + 1
                == old(self).tree_height(),
            final(self).tree_height() + 1 == old(self).tree_height() <==> old(self).tree_height()
                > 0 && old(self).root_node().slots() == 1 && old(self)@.contains_key(*key),
            final(self).tree_height() == old(self).tree_height() ==> match (
                old(self).root_node().node,
                final(self).root_node().node,
            ) {
                (BoxedNode::Internal(a), BoxedNode::Internal(b)) => r is Some && a.children.len()
                    >= 2 ==> delete_settled(*a, *b, *key),
                _ => true,
            },
    {
        proof {
            lemma_wf_ascending(self.root.root);
            lemma_del_map(self.entries(), *key);
            lemma_del_bounds(self.entries(), *key);
        }
        let ret = self.root.delete(key);
        if ret.is_some() {
            self.length = self.length - 1;
        }
        ret
    }
}

} // verus!
