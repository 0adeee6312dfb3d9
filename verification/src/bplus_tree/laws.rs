//! What holds of every tree, stated over the model that the contracts of
//! its operations use.

use crate::bplus_tree::bplus_tree::BPlusTree;
use crate::bplus_tree::bplus_tree::BoxedNode;
use crate::bplus_tree::bplus_tree::NodeRef;
use crate::bplus_tree::bplus_tree::CAPACITY;
use crate::bplus_tree::bplus_tree::INTERNAL_CHILDREN_CAPACITY;
use crate::bplus_tree::bplus_tree::MIN_LEN;
use crate::bplus_tree::entries::ascending;
use crate::bplus_tree::entries::del;
use crate::bplus_tree::entries::find;
use crate::bplus_tree::entries::holds;
use crate::bplus_tree::entries::keys_of;
use crate::bplus_tree::entries::lemma_del_map;
use crate::bplus_tree::entries::lemma_holds;
use crate::bplus_tree::entries::lemma_put_map;
use crate::bplus_tree::entries::lemma_rank;
use crate::bplus_tree::entries::lemma_rank_of_member;
use crate::bplus_tree::entries::put;
use crate::bplus_tree::entries::to_map;
use crate::bplus_tree::order::group_key_order;
use crate::bplus_tree::order::key_lt;
use crate::bplus_tree::order::lawful_keys;
use crate::bplus_tree::siblings::lemma_wf_ascending;
use vstd::prelude::*;

verus! {

broadcast use group_key_order;

/// The keys of an ascending sequence are all different, and the map that
/// the sequence stands for holds exactly its pairs.
pub proof fn lemma_ascending_map<K: Ord + Clone, V>(s: Seq<(K, V)>)
    requires
        lawful_keys::<K>(),
        ascending(keys_of(s)),
    ensures
        keys_of(s).no_duplicates(),
        to_map(s).dom() == keys_of(s).to_set(),
        to_map(s).dom().finite(),
        to_map(s).dom().len() == s.len(),
        forall|i: int| 0 <= i < s.len() ==> to_map(s)[(#[trigger] s[i]).0] == s[i].1,
{
    let keys = keys_of(s);
    assert forall|i: int, j: int| 0 <= i < keys.len() && 0 <= j < keys.len() && i != j implies keys[i]
        != keys[j] by {
        if i < j {
            assert(key_lt(keys[i], keys[j]));
        } else {
            assert(key_lt(keys[j], keys[i]));
        }
    }
    assert forall|k: K| to_map(s).dom().contains(k) == keys.to_set().contains(k) by {
        lemma_holds(s, k);
        if keys.to_set().contains(k) {
            let i = choose|i: int| 0 <= i < keys.len() && keys[i] == k;
            assert(s[i].0 == k);
        }
        if holds(s, k) {
            let i = choose|i: int| 0 <= i < s.len() && (#[trigger] s[i]).0 == k;
            assert(keys[i] == k);
        }
    }
    assert(to_map(s).dom() =~= keys.to_set());
    keys.unique_seq_to_set();
    vstd::seq_lib::seq_to_set_is_finite(keys);
    assert forall|i: int| 0 <= i < s.len() implies to_map(s)[(#[trigger] s[i]).0] == s[i].1 by {
        assert(keys[i] == s[i].0);
        lemma_rank_of_member(keys, i);
    }
}

impl<K: Ord + Clone, V> BPlusTree<K, V> {
    /// The keys of a tree ascend strictly along the leaf chain: none
    /// occurs twice. The tree as a map holds exactly the pairs of the
    /// chain, and as many as the tree counts.
    pub proof fn law_order(self)
        requires
            self.wf(),
        ensures
            ascending(keys_of(self.entries())),
            keys_of(self.entries()).no_duplicates(),
            self@.dom() == keys_of(self.entries()).to_set(),
            self@.dom().finite(),
            self@.dom().len() == self.entries().len(),
            forall|i: int|
                0 <= i < self.entries().len() ==> self@[(#[trigger] self.entries()[i]).0]
                    == self.entries()[i].1,
    {
        lemma_wf_ascending(self.root.root);
        lemma_ascending_map(self.entries());
    }

    /// A key bound to a value is found with that value, whatever the tree
    /// held before, and stays so while other keys are bound or removed.
    pub proof fn law_round_trip(self, after: Self, k: K, v: V)
        requires
            self.wf(),
            after.entries() == put(self.entries(), k, v),
        ensures
            after@ == self@.insert(k, v),
            after@.contains_key(k),
            after@[k] == v,
            forall|q: K, w: V| q != k ==> #[trigger] to_map(put(after.entries(), q, w))[k] == v,
            forall|q: K| q != k ==> #[trigger] to_map(del(after.entries(), q))[k] == v,
    {
        lemma_wf_ascending(self.root.root);
        lemma_put_map(self.entries(), k, v);
        crate::bplus_tree::entries::lemma_put_ascending(self.entries(), k, v);
        assert forall|q: K, w: V| q != k implies #[trigger] to_map(put(after.entries(), q, w))[k]
            == v by {
            lemma_put_map(after.entries(), q, w);
        }
        assert forall|q: K| q != k implies #[trigger] to_map(del(after.entries(), q))[k] == v by {
            lemma_del_map(after.entries(), q);
        }
    }

    /// Binding a key that the tree holds changes its value and nothing
    /// else: the same keys in the same order, and as many pairs.
    pub proof fn law_overwrite(self, after: Self, k: K, v: V)
        requires
            self.wf(),
            self@.contains_key(k),
            after.entries() == put(self.entries(), k, v),
        ensures
            find(self.entries(), k) == Some(self@[k]),
            after@[k] == v,
            keys_of(after.entries()) == keys_of(self.entries()),
            after.entries().len() == self.entries().len(),
    {
        lemma_wf_ascending(self.root.root);
        lemma_put_map(self.entries(), k, v);
        lemma_rank(keys_of(self.entries()), k);
        assert(keys_of(after.entries()) =~= keys_of(self.entries()));
    }

    /// A removed key is no longer found, the other keys keep their values,
    /// and removing a key that the tree does not hold leaves the pairs as
    /// they were.
    pub proof fn law_delete(self, after: Self, k: K)
        requires
            self.wf(),
            after.entries() == del(self.entries(), k),
        ensures
            after@ == self@.remove(k),
            !after@.contains_key(k),
            forall|q: K| q != k ==> after@.contains_key(q) == self@.contains_key(q),
            forall|q: K| q != k && self@.contains_key(q) ==> after@[q] == self@[q],
            !self@.contains_key(k) ==> after.entries() == self.entries(),
    {
        lemma_wf_ascending(self.root.root);
        lemma_del_map(self.entries(), k);
    }

    /// The leaf chain is whole: read forward it yields as many keys as the
    /// tree counts pairs, and read backward the same keys in reverse.
    pub proof fn law_chain(self, forward: Seq<K>, backward: Seq<K>)
        requires
            self.wf(),
            forward == keys_of(self.entries()),
            backward == keys_of(self.entries()).reverse(),
        ensures
            forward.len() == self.entries().len(),
            forward.len() == self@.dom().len(),
            backward.len() == forward.len(),
            backward == forward.reverse(),
            backward.reverse() == forward,
            forall|i: int| 0 <= i < forward.len() ==> backward[i] == forward[forward.len() - 1 - i],
    {
        self.law_order();
        assert(backward.reverse() =~= forward);
    }

    /// Every node but the root holds at least the minimum and no node more
    /// than fits, and all leaves are at one depth.
    pub proof fn law_balance(self)
        requires
            self.wf(),
        ensures
            balanced(self.root_node(), true),
    {
        lemma_balanced(self.root.root, true);
    }
}

/// The shape of a balanced subtree: a leaf at height 0 with no more than
/// `CAPACITY` keys, or an internal node with one child more than
/// separators, no more than `CAPACITY + 1` children, each one level lower
/// and balanced. A node other than the root holds at least `MIN_LEN` keys
/// as a leaf and `MIN_LEN + 1` children as an internal node.
pub open spec fn balanced<K: Ord + Clone, V>(node: NodeRef<K, V>, is_root: bool) -> bool
    decreases node,
{
    match node.node {
        BoxedNode::Leaf(leaf) => {
            &&& node.height == 0
            &&& leaf.keys.len() == leaf.vals.len()
            &&& leaf.keys.len() <= CAPACITY
            &&& is_root || leaf.keys.len() >= MIN_LEN
        },
        BoxedNode::Internal(inner) => {
            &&& node.height > 0
            &&& inner.children.len() == inner.keys.len() + 1
            &&& inner.children.len() <= INTERNAL_CHILDREN_CAPACITY
            &&& is_root || inner.children.len() >= MIN_LEN + 1
            &&& forall|j: int|
                0 <= j < inner.children.len() ==> {
                    let c = #[trigger] inner.children[j];
                    c.height + 1 == node.height && balanced(c, false)
                }
        },
    }
}

/// A well-formed subtree is balanced, as the root where nothing more is
/// known and as any other node where it is filled.
pub proof fn lemma_balanced<K: Ord + Clone, V>(node: NodeRef<K, V>, is_root: bool)
    requires
        node.wf(),
        is_root || node.filled(),
    ensures
        balanced(node, is_root),
    decreases node,
{
    match node.node {
        BoxedNode::Leaf(leaf) => {},
        BoxedNode::Internal(inner) => {
            assert forall|j: int| 0 <= j < inner.children.len() implies {
                let c = #[trigger] inner.children[j];
                c.height + 1 == node.height && balanced(c, false)
            } by {
                let c = inner.children@[j];
                assert(c.wf() && c.filled());
                lemma_balanced(c, false);
            }
        },
    }
}

} // verus!
