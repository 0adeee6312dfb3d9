//! Insertion: descent to the leaf, and splits that propagate upward.

use crate::bplus_tree::bplus_tree::BoxedNode;
use crate::bplus_tree::bplus_tree::InternalNode;
use crate::bplus_tree::bplus_tree::LeafNode;
use crate::bplus_tree::bplus_tree::NodeRef;
use crate::bplus_tree::bplus_tree::B;
use crate::bplus_tree::bplus_tree::CAPACITY;
use crate::bplus_tree::bplus_tree::MIN_LEN;
use crate::bplus_tree::bplus_tree::all_filled;
use crate::bplus_tree::bplus_tree::parts_of;
use crate::bplus_tree::bplus_tree::siblings_wf;
use crate::bplus_tree::entries::all_above;
use crate::bplus_tree::entries::all_at_most;
use crate::bplus_tree::entries::flat;
use crate::bplus_tree::bplus_tree::BPlusTree;
use crate::bplus_tree::bplus_tree::Root;
use crate::bplus_tree::entries::lemma_concat_bounds;
use crate::bplus_tree::entries::lemma_flat_concat;
use crate::bplus_tree::entries::lemma_flat_single;
use crate::bplus_tree::entries::lemma_put_map;
use crate::bplus_tree::siblings::lemma_height_bound;
use crate::bplus_tree::siblings::lemma_wf_ascending;
use crate::bplus_tree::entries::lemma_put_ascending;
use crate::bplus_tree::entries::lemma_put_bounds;
use crate::bplus_tree::order::key_le;
use crate::bplus_tree::order::key_lt;
use crate::bplus_tree::siblings::lemma_cut;
use crate::bplus_tree::siblings::lemma_descend;
use crate::bplus_tree::siblings::lemma_nonempty;
use crate::bplus_tree::siblings::lemma_replace_child;
use crate::bplus_tree::siblings::lemma_split_child;
use crate::bplus_tree::entries::find;
use crate::bplus_tree::entries::holds;
use crate::bplus_tree::entries::keys_of;
use crate::bplus_tree::entries::lemma_rank;
use crate::bplus_tree::entries::put;
use crate::bplus_tree::entries::rank;
use crate::bplus_tree::get::route;
use crate::bplus_tree::order::group_key_order;
use crate::bplus_tree::order::duplicate;
use crate::bplus_tree::order::lawful_keys;
use crate::bplus_tree::order::less_or_same;
use crate::bplus_tree::order::same;
use vstd::prelude::*;

verus! {

broadcast use group_key_order;

/// How an insertion ended at one node.
pub enum InsertBehavior<K, V> {
    /// The node was full: it kept its lower part, and the upper part went
    /// to a new right sibling. The key is the largest key that the node
    /// kept.
    Split(K, NodeRef<K, V>),
    /// The node took the pair without changing shape.
    Fit,
}

/// What an insertion handed up, as a pair: the separator and the new right
/// sibling of a split, nothing where the pair fit.
pub open spec fn split_of<K, V>(behavior: InsertBehavior<K, V>) -> Option<(K, NodeRef<K, V>)> {
    match behavior {
        InsertBehavior::Split(sep, right) => Some((sep, right)),
        InsertBehavior::Fit => None,
    }
}

impl<K: Ord + Clone, V> NodeRef<K, V> {
    /// The node has to split to take `key`: a leaf that is full and does
    /// not hold the key, or an internal node that is full and whose child
    /// at the rank of the key has to split.
    pub open spec fn overflows(self, key: K) -> bool
        decreases self,
    {
        match self.node {
            BoxedNode::Leaf(leaf) => !holds(leaf.entries(), key) && leaf.keys.len() >= CAPACITY,
            BoxedNode::Internal(node) => {
                let i = rank(node.keys@, key);
                &&& node.children.len() > CAPACITY
                &&& 0 <= i < node.children.len()
                &&& node.children[i].overflows(key)
            },
        }
    }
}

/// The separators `keys` and the children `children` are `old_keys` and
/// `old_children` with one separator more at `i` and one child more right
/// after the child at `i`; every other child is as it was.
pub open spec fn joined_around<K, V>(
    old_keys: Seq<K>,
    old_children: Seq<NodeRef<K, V>>,
    i: int,
    keys: Seq<K>,
    children: Seq<NodeRef<K, V>>,
) -> bool {
    &&& children.len() == old_children.len() + 1
    &&& keys.len() == old_keys.len() + 1
    &&& keys == old_keys.insert(i, keys[i])
    &&& forall|j: int| 0 <= j < i ==> children[j] == old_children[j]
    &&& forall|j: int| i + 1 < j < children.len() ==> children[j] == old_children[j - 1]
}

/// The separators of an internal node after an insertion, with the
/// separator and the separators of the new sibling that it handed up.
pub open spec fn keys_with<K, V>(node: InternalNode<K, V>, out: Option<(K, NodeRef<K, V>)>) -> Seq<K> {
    match out {
        None => node.keys@,
        Some((mid, right)) => node.keys@ + seq![mid] + right.node->Internal_0.keys@,
    }
}

/// The children of an internal node after an insertion, with the children
/// of the new sibling that it handed up.
pub open spec fn children_with<K, V>(
    node: InternalNode<K, V>,
    out: Option<(K, NodeRef<K, V>)>,
) -> Seq<NodeRef<K, V>> {
    match out {
        None => node.children@,
        Some((mid, right)) => node.children@ + right.node->Internal_0.children@,
    }
}

/// The leaf `b` is the leaf `a` once `key` was bound to `value` in it.
///
/// Where nothing is handed up, the leaf took the pair in place or in
/// order. Else it kept `CAPACITY - B` of its pairs and handed up the rest
/// as a new leaf, took the pair on the side that its key belongs to, and
/// handed up its own last key as separator.
pub open spec fn leaf_took<K: Ord + Clone, V>(
    a: LeafNode<K, V>,
    b: LeafNode<K, V>,
    key: K,
    value: V,
    out: Option<(K, NodeRef<K, V>)>,
) -> bool {
    match out {
        None => b.entries() == put(a.entries(), key, value),
        Some((sep, right)) => {
            &&& right.node is Leaf
            &&& b.entries() + right.entries() == put(a.entries(), key, value)
            &&& sep == b.keys@.last()
            &&& b.keys.len() == if key_le(key, a.keys@[CAPACITY - B - 1]) {
                CAPACITY - B + 1
            } else {
                CAPACITY - B
            }
        },
    }
}

/// The internal node `b` is the internal node `a` once a pair under `key`
/// went into the child at the rank of `key`, where `child_split` says that
/// this child is as it should be after a split and `child_fit` that it is
/// as it should be after taking the pair.
///
/// Only that child changes. Where it split, its separator and its new
/// sibling stand right after it. Where the node itself had to split, this
/// is so of its separators and children read together with the handed-up
/// separator and those of the new sibling: the node keeps `B + 1` children
/// where the child stood among its first `B`, and `B` children otherwise.
pub open spec fn internal_took<K: Ord + Clone, V>(
    a: InternalNode<K, V>,
    b: InternalNode<K, V>,
    key: K,
    out: Option<(K, NodeRef<K, V>)>,
    child_split: bool,
    child_fit: bool,
) -> bool {
    let i = rank(a.keys@, key);
    let keys = keys_with(b, out);
    let children = children_with(b, out);
    &&& 0 <= i < a.children.len()
    &&& out matches Some((_, right)) ==> {
        &&& right.node is Internal
        &&& b.children.len() == if i < B {
            B + 1
        } else {
            B as int
        }
    }
    &&& if a.children[i].overflows(key) {
        &&& joined_around(a.keys@, a.children@, i, keys, children)
        &&& child_split
    } else {
        &&& keys == a.keys@
        &&& children.len() == a.children.len()
        &&& forall|j: int| 0 <= j < children.len() && j != i ==> children[j] == a.children@[j]
        &&& child_fit
    }
}

/// `after` is the subtree `before` once `key` was bound to `value` in it,
/// node by node, and `out` is what was handed up: a separator and a new
/// right sibling of the same height, exactly where the node of `before`
/// had to split. What that means of a leaf says `leaf_took`, and of an
/// internal node `internal_took`, with this relation for the child at the
/// rank of the key.
#[verifier::opaque]
pub open spec fn inserted<K: Ord + Clone, V>(
    before: NodeRef<K, V>,
    after: NodeRef<K, V>,
    key: K,
    value: V,
    out: Option<(K, NodeRef<K, V>)>,
) -> bool
    decreases before,
{
    &&& after.height == before.height
    &&& out is Some <==> before.overflows(key)
    &&& out matches Some((_, right)) ==> right.height == before.height
    &&& match (before.node, after.node) {
        (BoxedNode::Leaf(a), BoxedNode::Leaf(b)) => leaf_took(*a, *b, key, value, out),
        (BoxedNode::Internal(a), BoxedNode::Internal(b)) => {
            let i = rank(a.keys@, key);
            let keys = keys_with(*b, out);
            let children = children_with(*b, out);
            internal_took(
                *a,
                *b,
                key,
                out,
                if 0 <= i < a.children.len() {
                    inserted(a.children[i], children[i], key, value, Some((keys[i], children[i + 1])))
                } else {
                    false
                },
                if 0 <= i < a.children.len() {
                    inserted(a.children[i], children[i], key, value, None)
                } else {
                    false
                },
            )
        },
        _ => false,
    }
}

/// `after` is the root `before` once `key` was bound to `value` in the
/// tree. Where the node of `before` had to split, `after` is a new node
/// one level higher with one separator and two children: the node of
/// `before` after the insertion, and the sibling that it handed up with
/// that separator. Else `after` is the node of `before` after the
/// insertion, at the same height.
pub open spec fn root_inserted<K: Ord + Clone, V>(
    before: NodeRef<K, V>,
    after: NodeRef<K, V>,
    key: K,
    value: V,
) -> bool {
    if before.overflows(key) {
        &&& after.height == before.height + 1
        &&& after.node is Internal
        &&& after.node->Internal_0.keys.len() == 1
        &&& after.node->Internal_0.children.len() == 2
        &&& inserted(
            before,
            after.node->Internal_0.children@[0],
            key,
            value,
            Some((after.node->Internal_0.keys@[0], after.node->Internal_0.children@[1])),
        )
    } else {
        inserted(before, after, key, value, None)
    }
}

/// A subtree that holds a key has room to bind it anew: no node splits.
pub proof fn lemma_present_fits<K: Ord + Clone, V>(node: NodeRef<K, V>, key: K)
    requires
        lawful_keys::<K>(),
        node.wf(),
        holds(node.entries(), key),
    ensures
        !node.overflows(key),
    decreases node,
{
    match node.node {
        BoxedNode::Leaf(leaf) => {},
        BoxedNode::Internal(inner) => {
            lemma_descend(inner.keys@, inner.children@, key);
            let i = rank(inner.keys@, key);
            assert(inner.children@[i].wf());
            lemma_present_fits(inner.children@[i], key);
        },
    }
}

/// Every subtree has the shape and the keys of itself.
pub proof fn lemma_same_keys_reflexive<K: Ord + Clone, V>(node: NodeRef<K, V>)
    ensures
        node.same_keys(node),
    decreases node,
{
    match node.node {
        BoxedNode::Leaf(leaf) => {},
        BoxedNode::Internal(inner) => {
            assert forall|j: int| 0 <= j < inner.children.len() implies (
            #[trigger] inner.children[j]).same_keys(inner.children[j]) by {
                lemma_same_keys_reflexive(inner.children[j]);
            }
        },
    }
}

/// Binding a key that the subtree holds changes a value and nothing else:
/// no node splits, and every node keeps its keys and its children.
pub proof fn lemma_overwrite_keeps_shape<K: Ord + Clone, V>(
    before: NodeRef<K, V>,
    after: NodeRef<K, V>,
    key: K,
    value: V,
)
    requires
        lawful_keys::<K>(),
        before.wf(),
        after.wf(),
        holds(before.entries(), key),
        inserted(before, after, key, value, None),
    ensures
        after.same_keys(before),
    decreases before,
{
    reveal(inserted);
    match (before.node, after.node) {
        (BoxedNode::Leaf(a), BoxedNode::Leaf(b)) => {
            lemma_rank(keys_of(a.entries()), key);
            let p = rank(keys_of(a.entries()), key);
            assert(b.entries().len() == a.entries().len());
            assert forall|t: int| 0 <= t < b.keys.len() implies b.keys@[t] == a.keys@[t] by {
                assert(b.entries()[t].0 == b.keys@[t]);
                assert(a.entries()[t].0 == a.keys@[t]);
                if t == p {
                    assert(a.entries()[p].0 == key);
                }
            }
            assert(b.keys@ =~= a.keys@);
        },
        (BoxedNode::Internal(a), BoxedNode::Internal(b)) => {
            lemma_descend(a.keys@, a.children@, key);
            let i = rank(a.keys@, key);
            assert(a.children@[i].wf());
            assert(b.children@[i].wf());
            lemma_present_fits(a.children@[i], key);
            assert forall|j: int| 0 <= j < b.children.len() implies (
            #[trigger] b.children[j]).same_keys(a.children[j]) by {
                if j == i {
                    lemma_overwrite_keeps_shape(a.children@[i], b.children@[i], key, value);
                } else {
                    assert(b.children@[j] == a.children@[j]);
                    lemma_same_keys_reflexive(a.children@[j]);
                }
            }
        },
        _ => {},
    }
}

/// Separators and children cut at the separator `m` read together again as
/// they were.
pub proof fn lemma_cut_views<K, V>(
    keys: Seq<K>,
    children: Seq<NodeRef<K, V>>,
    m: int,
    left_keys: Seq<K>,
    left_children: Seq<NodeRef<K, V>>,
    right_keys: Seq<K>,
    right_children: Seq<NodeRef<K, V>>,
)
    requires
        0 <= m < keys.len(),
        children.len() == keys.len() + 1,
        left_keys == keys.subrange(0, m),
        left_children == children.subrange(0, m + 1),
        right_keys == keys.subrange(m + 1, keys.len() as int),
        right_children == children.subrange(m + 1, children.len() as int),
    ensures
        left_keys + seq![keys[m]] + right_keys == keys,
        left_children + right_children == children,
{
    assert(left_keys + seq![keys[m]] + right_keys =~= keys);
    assert(left_children + right_children =~= children);
}

/// What `inserted` says of two leaves.
pub proof fn lemma_inserted_leaf<K: Ord + Clone, V>(
    before: NodeRef<K, V>,
    after: NodeRef<K, V>,
    key: K,
    value: V,
    out: Option<(K, NodeRef<K, V>)>,
)
    requires
        before.node is Leaf,
        after.node is Leaf,
    ensures
        inserted(before, after, key, value, out) <==> {
            &&& after.height == before.height
            &&& out is Some <==> before.overflows(key)
            &&& out matches Some((_, right)) ==> right.height == before.height
            &&& leaf_took(*before.node->Leaf_0, *after.node->Leaf_0, key, value, out)
        },
{
    reveal(inserted);
}

/// What `inserted` says of two internal nodes.
pub proof fn lemma_inserted_internal<K: Ord + Clone, V>(
    before: NodeRef<K, V>,
    after: NodeRef<K, V>,
    key: K,
    value: V,
    out: Option<(K, NodeRef<K, V>)>,
)
    requires
        before.node is Internal,
        after.node is Internal,
        0 <= rank(before.node->Internal_0.keys@, key) < before.node->Internal_0.children.len(),
    ensures
        inserted(before, after, key, value, out) <==> ({
            let a = *before.node->Internal_0;
            let b = *after.node->Internal_0;
            let i = rank(a.keys@, key);
            let keys = keys_with(b, out);
            let children = children_with(b, out);
            &&& after.height == before.height
            &&& out is Some <==> before.overflows(key)
            &&& out matches Some((_, right)) ==> right.height == before.height
            &&& internal_took(
                a,
                b,
                key,
                out,
                inserted(a.children[i], children[i], key, value, Some((keys[i], children[i + 1]))),
                inserted(a.children[i], children[i], key, value, None),
            )
        }),
{
    reveal(inserted);
}

impl<K: Ord + Clone, V> LeafNode<K, V> {
    /// Moves the top `B` pairs of a full leaf into a new leaf and returns it.
    pub fn split(&mut self) -> (right: LeafNode<K, V>)
        requires
            old(self).wf(),
            old(self).keys.len() == CAPACITY,
        ensures
            final(self).wf(),
            right.wf(),
            final(self).entries() == old(self).entries().subrange(0, CAPACITY - B),
            right.entries() == old(self).entries().subrange(CAPACITY - B, CAPACITY as int),
            final(self).keys.len() == CAPACITY - B,
            right.keys.len() == B,
    {
        let keys = self.keys.split_off(CAPACITY - B);
        let vals = self.vals.split_off(CAPACITY - B);
        let right = LeafNode { keys, vals };
        assert(final(self).entries() =~= old(self).entries().subrange(0, CAPACITY - B));
        assert(right.entries() =~= old(self).entries().subrange(CAPACITY - B, CAPACITY as int));
        right
    }

    /// Puts the pair at index `p`, which is the rank of `key` among the
    /// keys of a leaf that has room and does not hold `key`.
    fn place(&mut self, p: usize, key: K, value: V)
        requires
            lawful_keys::<K>(),
            old(self).wf(),
            old(self).keys.len() < CAPACITY,
            p == rank(old(self).keys@, key),
            !holds(old(self).entries(), key),
        ensures
            final(self).wf(),
            final(self).entries() == put(old(self).entries(), key, value),
            final(self).keys.len() == old(self).keys.len() + 1,
    {
        proof {
            lemma_rank(self.keys@, key);
            assert(keys_of(self.entries()) =~= self.keys@);
            crate::bplus_tree::entries::lemma_put_ascending(self.entries(), key, value);
        }
        self.keys.insert(p, key);
        self.vals.insert(p, value);
        assert(self.entries() =~= put(old(self).entries(), key, value));
        assert(keys_of(self.entries()) =~= self.keys@);
    }

    /// Binds `key` to `value` in the leaf.
    ///
    /// Where the leaf holds `key`, the value is replaced and the old one
    /// returned. Where it does not and has room, the pair enters in order.
    /// Where it is full, the leaf splits and the pair enters the side that
    /// its key belongs to.
    pub fn insert(&mut self, key: K, value: V) -> (r: (InsertBehavior<K, V>, Option<V>, usize))
        requires
            lawful_keys::<K>(),
            old(self).wf(),
        ensures
            final(self).wf(),
            r.1 == find(old(self).entries(), key),
            r.0 is Fit <==> holds(old(self).entries(), key) || old(self).keys.len() < CAPACITY,
            match r.0 {
                InsertBehavior::Fit => {
                    &&& final(self).entries() == put(old(self).entries(), key, value)
                    &&& r.2 == rank(old(self).keys@, key)
                    &&& final(self).keys.len() == old(self).keys.len() + if holds(
                        old(self).entries(),
                        key,
                    ) {
                        0int
                    } else {
                        1int
                    }
                },
                InsertBehavior::Split(sep, right) => {
                    &&& right.wf()
                    &&& right.height == 0
                    &&& final(self).entries() + right.entries()
                        == put(old(self).entries(), key, value)
                    &&& final(self).keys.len() >= MIN_LEN
                    &&& right.filled()
                    &&& sep == final(self).keys@.last()
                    &&& r.2 == 0
                    &&& final(self).keys.len() + right.slots() == CAPACITY + 1
                    &&& final(self).keys.len() == if key_le(
                        key,
                        old(self).keys@[CAPACITY - B - 1],
                    ) {
                        CAPACITY - B + 1
                    } else {
                        CAPACITY - B
                    }
                },
            },
    {
        proof {
            assert(keys_of(self.entries()) =~= self.keys@);
            lemma_rank(self.keys@, key);
        }
        let p = route(&self.keys, &key);
        if p < self.keys.len() && same(&self.keys[p], &key) {
            let mut slot = value;
            core::mem::swap(&mut self.vals[p], &mut slot);
            assert(self.entries() =~= put(old(self).entries(), key, value));
            return (InsertBehavior::Fit, Some(slot), p);
        }
        if self.keys.len() < CAPACITY {
            self.place(p, key, value);
            return (InsertBehavior::Fit, None, p);
        }
        let ghost whole = self.entries();
        let mut right = self.split();
        let last = self.keys.len() - 1;
        proof {
            assert(keys_of(right.entries()) =~= right.keys@);
            assert(keys_of(self.entries()) =~= self.keys@);
            assert(whole =~= self.entries() + right.entries());
            assert(whole =~= Seq::<(K, V)>::empty() + self.entries() + right.entries());
            assert(whole =~= self.entries() + right.entries() + Seq::<(K, V)>::empty());
            assert forall|t: int| 0 <= t < right.entries().len() implies
                crate::bplus_tree::order::key_lt(self.keys@[last as int], (#[trigger] right.entries()[t]).0) by {
                assert(right.entries()[t] == whole[t + CAPACITY - B]);
                assert(self.keys@[last as int] == keys_of(whole)[last as int]);
                assert(right.entries()[t].0 == keys_of(whole)[t + CAPACITY - B]);
            }
            assert forall|t: int| 0 <= t < self.entries().len() implies
                crate::bplus_tree::order::key_le((#[trigger] self.entries()[t]).0, self.keys@[last as int]) by {
                assert(self.entries()[t].0 == self.keys@[t]);
            }
        }
        if less_or_same(&key, &self.keys[last]) {
            proof {
                crate::bplus_tree::entries::lemma_focus(
                    Seq::<(K, V)>::empty(),
                    self.entries(),
                    right.entries(),
                    key,
                );
                assert(put(whole, key, value) == Seq::<(K, V)>::empty() + put(
                    self.entries(),
                    key,
                    value,
                ) + right.entries());
                assert(Seq::<(K, V)>::empty() + put(self.entries(), key, value) =~= put(
                    self.entries(),
                    key,
                    value,
                ));
            }
            self.place(p, key, value);
        } else {
            proof {
                crate::bplus_tree::entries::lemma_focus(
                    self.entries(),
                    right.entries(),
                    Seq::<(K, V)>::empty(),
                    key,
                );
                assert(put(whole, key, value) == self.entries() + put(
                    right.entries(),
                    key,
                    value,
                ) + Seq::<(K, V)>::empty());
                assert(self.entries() + put(right.entries(), key, value) + Seq::<
                    (K, V),
                >::empty() =~= self.entries() + put(right.entries(), key, value));
            }
            right.place(p - (CAPACITY - B), key, value);
        }
        let sep = duplicate(&self.keys[self.keys.len() - 1]);
        let right = NodeRef::from_boxed_node(BoxedNode::from_leaf(Box::new(right)));
        (InsertBehavior::Split(sep, right), None, 0)
    }
}

impl<K: Ord + Clone, V> InternalNode<K, V> {
    /// Puts the separator `key` at `index` and the child `node` right after
    /// the child at `index`.
    pub fn join_node(&mut self, index: usize, key: K, node: NodeRef<K, V>)
        requires
            index <= old(self).keys.len(),
            index < old(self).children.len(),
        ensures
            final(self).keys@ == old(self).keys@.insert(index as int, key),
            final(self).children@ == old(self).children@.insert(index + 1, node),
    {
        self.keys.insert(index, key);
        self.children.insert(index + 1, node);
    }

    /// Cuts a full node at its middle separator: the node keeps the `B`
    /// children before it, the `B` children after it go to a new node, and
    /// the separator itself is handed back.
    pub fn cut_right(&mut self) -> (r: (K, Box<InternalNode<K, V>>))
        requires
            old(self).keys.len() == CAPACITY,
            old(self).children.len() == CAPACITY + 1,
        ensures
            r.0 == old(self).keys@[B - 1],
            final(self).keys@ == old(self).keys@.subrange(0, B - 1),
            final(self).children@ == old(self).children@.subrange(0, B as int),
            r.1.keys@ == old(self).keys@.subrange(B as int, CAPACITY as int),
            r.1.children@ == old(self).children@.subrange(B as int, CAPACITY + 1),
    {
        let keys = self.keys.split_off(B);
        let children = self.children.split_off(B);
        let raised = self.keys.remove(B - 1);
        assert(self.keys@ =~= old(self).keys@.subrange(0, B - 1));
        (raised, Box::new(InternalNode { keys, children }))
    }

    /// Splits a full node that has to take one more separator and child:
    /// the node is cut at its middle separator, and `key` and `node` join
    /// the half that `index` falls into. Returns the middle separator and
    /// the new right node.
    ///
    /// Seen on the node as it would be with `key` and `node` joined in at
    /// `index`, the cut stands at separator `B` where they joined the left
    /// half and at separator `B - 1` where they joined the right half.
    pub fn split(&mut self, index: usize, key: K, node: NodeRef<K, V>) -> (r: (
        K,
        Box<InternalNode<K, V>>,
    ))
        requires
            old(self).keys.len() == CAPACITY,
            old(self).children.len() == CAPACITY + 1,
            index <= CAPACITY,
        ensures
            ({
                let keys = old(self).keys@.insert(index as int, key);
                let children = old(self).children@.insert(index + 1, node);
                let m: int = if index < B { B as int } else { B - 1 };
                &&& r.0 == keys[m]
                &&& final(self).keys@ == keys.subrange(0, m)
                &&& final(self).children@ == children.subrange(0, m + 1)
                &&& r.1.keys@ == keys.subrange(m + 1, keys.len() as int)
                &&& r.1.children@ == children.subrange(m + 1, children.len() as int)
            }),
    {
        let (mid_key, mut right) = self.cut_right();
        if B <= index {
            right.join_node(index - B, key, node);
        } else {
            self.join_node(index, key, node);
        }
        proof {
            let keys = old(self).keys@.insert(index as int, key);
            let children = old(self).children@.insert(index + 1, node);
            let m: int = if index < B { B as int } else { B - 1 };
            assert(self.keys@ =~= keys.subrange(0, m));
            assert(self.children@ =~= children.subrange(0, m + 1));
            assert(right.keys@ =~= keys.subrange(m + 1, keys.len() as int));
            assert(right.children@ =~= children.subrange(m + 1, children.len() as int));
        }
        (mid_key, right)
    }

    /// Binds `key` to `value` below this node: descends into the child at
    /// the rank of `key` and reports how the insertion ended there, with the
    /// index of that child.
    ///
    /// Where the child split, its new right sibling and separator are
    /// handed back and not yet joined in: the node as it would be with them
    /// joined in after that child is described.
    pub fn insert(&mut self, key: K, value: V) -> (r: (InsertBehavior<K, V>, Option<V>, usize))
        requires
            lawful_keys::<K>(),
            old(self).wf(),
        ensures
            r.2 == rank(old(self).keys@, key),
            r.2 <= old(self).keys.len(),
            r.1 == find(old(self).entries(), key),
            final(self).keys@ == old(self).keys@,
            final(self).children@.len() == old(self).children@.len(),
            final(self).children@[0].height == old(self).children@[0].height,
            forall|j: int|
                0 <= j < final(self).children.len() && j != r.2 ==> final(self).children@[j]
                    == old(self).children@[j],
            inserted(
                old(self).children@[r.2 as int],
                final(self).children@[r.2 as int],
                key,
                value,
                split_of(r.0),
            ),
            r.0 is Split <==> old(self).children@[r.2 as int].overflows(key),
            match r.0 {
                InsertBehavior::Fit => {
                    &&& final(self).wf()
                    &&& final(self).entries() == put(old(self).entries(), key, value)
                },
                InsertBehavior::Split(sep, right) => {
                    let keys = final(self).keys@.insert(r.2 as int, sep);
                    let children = final(self).children@.insert(r.2 + 1, right);
                    &&& siblings_wf(keys, children)
                    &&& all_filled(children)
                    &&& flat(parts_of(children)) == put(old(self).entries(), key, value)
                },
            },
        decreases *old(self), 0nat,
    {
        proof {
            lemma_descend(self.keys@, self.children@, key);
        }
        let idx = route(&self.keys, &key);
        let ghost before = self.children@;
        let ghost child = self.children@[idx as int];
        let ghost mid = self.children@[idx as int].entries();
        let (behavior, ret, _) = self.children[idx].insert(key, value);
        proof {
            let now = self.children@[idx as int];
            lemma_put_bounds(mid, key, value);
            if behavior is Fit {
                {
                    lemma_replace_child(self.keys@, before, idx as int, now);
                    assert(self.children@ =~= before.update(idx as int, now));
                    assert forall|j: int| 0 <= j < self.children.len() implies (
                    #[trigger] self.children@[j]).filled() by {
                        if j != idx {
                            assert(self.children@[j] == before[j]);
                        }
                    }
                }
            } else {
                let sep = behavior->Split_0;
                let right = behavior->Split_1;
                {
                    lemma_concat_bounds(now.entries(), right.entries());
                    lemma_nonempty(now);
                    lemma_nonempty(right);
                    lemma_split_child(self.keys@, before, idx as int, now, right, sep);
                    assert(self.children@ =~= before.update(idx as int, now));
                    let children = self.children@.insert(idx + 1, right);
                    assert forall|j: int| 0 <= j < children.len() implies (
                    #[trigger] children[j]).filled() by {
                        if j < idx {
                            assert(children[j] == before[j]);
                        } else if j > idx + 1 {
                            assert(children[j] == before[j - 1]);
                        }
                    }
                }
            }
        }
        (behavior, ret, idx)
    }
}

impl<K: Ord + Clone, V> NodeRef<K, V> {
    /// Binds `key` to `value` in the subtree and returns the value that
    /// `key` was bound to before.
    ///
    /// The subtree keeps its height. Where its root node was full and had
    /// to take one more, it splits: the subtree keeps the lower part, and
    /// the upper part is handed back as a new right sibling, with a
    /// separator that is at least every key kept and orders before every
    /// key handed back.
    #[verifier::rlimit(50)]
    pub fn insert(&mut self, key: K, value: V) -> (r: (InsertBehavior<K, V>, Option<V>, usize))
        requires
            lawful_keys::<K>(),
            old(self).wf(),
        ensures
            final(self).wf(),
            final(self).height == old(self).height,
            r.1 == find(old(self).entries(), key),
            old(self).filled() ==> final(self).filled(),
            r.2 == match old(self).node {
                BoxedNode::Leaf(leaf) => if holds(leaf.entries(), key) || leaf.keys.len()
                    < CAPACITY {
                    rank(leaf.keys@, key)
                } else {
                    0
                },
                BoxedNode::Internal(node) => rank(node.keys@, key),
            },
            match r.0 {
                InsertBehavior::Fit => final(self).entries() == put(
                    old(self).entries(),
                    key,
                    value,
                ),
                InsertBehavior::Split(sep, right) => {
                    &&& right.wf()
                    &&& right.height == old(self).height
                    &&& final(self).filled()
                    &&& right.filled()
                    &&& final(self).entries() + right.entries() == put(
                        old(self).entries(),
                        key,
                        value,
                    )
                    &&& all_at_most(final(self).entries(), sep)
                    &&& all_above(right.entries(), sep)
                    &&& old(self).slots() == old(self).room()
                    &&& final(self).slots() + right.slots() == old(self).slots() + 1
                    &&& final(self).slots() == match old(self).node {
                        BoxedNode::Leaf(leaf) => if key_le(key, leaf.keys@[CAPACITY - B - 1]) {
                            CAPACITY - B + 1
                        } else {
                            CAPACITY - B
                        },
                        BoxedNode::Internal(node) => if rank(node.keys@, key) < B {
                            B + 1
                        } else {
                            B as int
                        },
                    }
                },
            },
            r.0 is Fit ==> final(self).slots() == old(self).slots() || final(self).slots()
                == old(self).slots() + 1,
            r.0 is Split <==> old(self).overflows(key),
            inserted(*old(self), *final(self), key, value, split_of(r.0)),
        decreases *old(self), 1nat,
    {
        let height = self.height;
        match &mut self.node {
            BoxedNode::Leaf(leaf) => {
                let ghost before = leaf.entries();
                let r = leaf.insert(key, value);
                proof {
                    assert(keys_of(before) =~= old(self).node->Leaf_0.keys@);
                    lemma_put_ascending(before, key, value);
                    let now = NodeRef { height, node: BoxedNode::Leaf(Box::new(**leaf)) };
                    lemma_inserted_leaf(*old(self), now, key, value, split_of(r.0));
                    if r.0 is Fit {
                        lemma_put_bounds(before, key, value);
                    } else {
                        let sep = r.0->Split_0;
                        let right = r.0->Split_1;
                        {
                            let le = leaf.entries();
                            let re = right.entries();
                            let all = put(before, key, value);
                            let ak = keys_of(all);
                            let n = le.len() as int;
                            assert forall|t: int| 0 <= t < le.len() implies key_le(
                                (#[trigger] le[t]).0,
                                sep,
                            ) by {
                                assert(all[t] == le[t]);
                                assert(all[n - 1] == le[n - 1]);
                                assert(ak[t] == le[t].0 && ak[n - 1] == sep);
                            }
                            assert forall|t: int| 0 <= t < re.len() implies key_lt(
                                sep,
                                (#[trigger] re[t]).0,
                            ) by {
                                assert(all[n + t] == re[t]);
                                assert(all[n - 1] == le[n - 1]);
                                assert(ak[n + t] == re[t].0 && ak[n - 1] == sep);
                            }
                        }
                    }
                }
                r
            },
            BoxedNode::Internal(node) => {
                let length = node.length();
                let (behavior, ret, idx) = node.insert(key, value);
                match behavior {
                    InsertBehavior::Split(sep, right) => {
                        let ghost keys = node.keys@.insert(idx as int, sep);
                        let ghost children = node.children@.insert(idx + 1, right);
                        if CAPACITY < length {
                            let (mid_key, right_part) = node.split(idx, sep, right);
                            proof {
                                let m: int = if idx < B { B as int } else { B - 1 };
                                lemma_cut(keys, children, m);
                                assert(children[0] == node.children@[0]);
                                assert(children[m + 1] == right_part.children@[0]);
                                assert(children.len() == CAPACITY + 2);
                                assert(node.children@.len() == m + 1);
                                assert(right_part.children@.len() == CAPACITY + 1 - m);
                                lemma_cut_views(
                                    keys,
                                    children,
                                    m,
                                    node.keys@,
                                    node.children@,
                                    right_part.keys@,
                                    right_part.children@,
                                );
                                assert forall|j: int| 0 <= j < node.children.len() implies (
                                #[trigger] node.children@[j]).filled() by {
                                    assert(node.children@[j] == children[j]);
                                }
                                assert forall|j: int|
                                    0 <= j < right_part.children.len() implies (
                                #[trigger] right_part.children@[j]).filled() by {
                                    assert(right_part.children@[j] == children[j + m + 1]);
                                }
                            }
                            let right_ref = NodeRef {
                                height,
                                node: BoxedNode::from_internal(right_part),
                            };
                            proof {
                                let now = NodeRef {
                                    height,
                                    node: BoxedNode::Internal(Box::new(**node)),
                                };
                                let out = Some((mid_key, right_ref));
                                assert(keys_with(**node, out) == keys);
                                assert(children_with(**node, out) == children);
                                lemma_inserted_internal(*old(self), now, key, value, out);
                            }
                            (InsertBehavior::Split(mid_key, right_ref), ret, idx)
                        } else {
                            node.join_node(idx, sep, right);
                            proof {
                                assert(children[0] == node.children@[0]);
                                let now = NodeRef {
                                    height,
                                    node: BoxedNode::Internal(Box::new(**node)),
                                };
                                assert(keys[idx as int] == sep);
                                lemma_inserted_internal(*old(self), now, key, value, None);
                            }
                            (InsertBehavior::Fit, ret, idx)
                        }
                    },
                    InsertBehavior::Fit => {
                        proof {
                            let now = NodeRef {
                                height,
                                node: BoxedNode::Internal(Box::new(**node)),
                            };
                            lemma_inserted_internal(*old(self), now, key, value, None);
                        }
                        (InsertBehavior::Fit, ret, idx)
                    },
                }
            },
        }
    }
}

impl<K: Ord + Clone, V> Root<K, V> {
    /// Binds `key` to `value` in the tree and returns the value that `key`
    /// was bound to before.
    ///
    /// Where the root node splits, a new root takes the two halves as its
    /// children, with the separator between them, and the tree grows by one
    /// level. Nothing else makes it grow.
    pub fn insert(&mut self, key: K, value: V) -> (r: Option<V>)
        requires
            lawful_keys::<K>(),
            old(self).wf(),
            old(self).root.height < u16::MAX,
        ensures
            final(self).wf(),
            r == find(old(self).entries(), key),
            final(self).entries() == put(old(self).entries(), key, value),
            final(self).root.height == old(self).root.height || final(self).root.height == old(
                self,
            ).root.height + 1,
            final(self).root.height == old(self).root.height + 1 ==> final(self).root.slots() == 2,
            final(self).root.height == old(self).root.height + 1 <==> old(self).root.overflows(key),
            root_inserted(old(self).root, final(self).root, key, value),
    {
        let (behavior, ret, _) = self.root.insert(key, value);
        if let InsertBehavior::Split(sep, right) = behavior {
            let height = self.root.height;
            let mut keys: Vec<K> = Vec::new();
            keys.push(sep);
            let top = InternalNode { keys, children: Vec::new() };
            let mut left = NodeRef { height: height + 1, node: BoxedNode::from_internal(Box::new(top)) };
            core::mem::swap(&mut self.root, &mut left);
            let ghost le = left.entries();
            let ghost re = right.entries();
            let ghost pair = seq![left, right];
            match &mut self.root.node {
                BoxedNode::Internal(node) => {
                    node.children.push(left);
                    node.children.push(right);
                    proof {
                        assert(node.children@ =~= pair);
                        let parts = parts_of(pair);
                        assert(parts =~= seq![le] + seq![re]);
                        lemma_flat_concat(seq![le], seq![re]);
                        lemma_flat_single(le);
                        lemma_flat_single(re);
                        assert(parts[0] == le && parts[1] == re);
                    }
                },
                BoxedNode::Leaf(_) => {},
            }
        }
        ret
    }
}

impl<K: Ord + Clone, V> BPlusTree<K, V> {
    /// Binds `key` to `value` and returns the value that `key` was bound to
    /// before, if there was one.
    ///
    /// The tree may split nodes on the way and may grow by one level.
    pub fn insert(&mut self, key: K, value: V) -> (r: Option<V>)
        requires
            old(self).wf(),
            old(self)@.contains_key(key) || old(self).entries().len() < usize::MAX,
        ensures
            final(self).wf(),
            final(self)@ == old(self)@.insert(key, value),
            r == if old(self)@.contains_key(key) {
                Some(old(self)@[key])
            } else {
                None
            },
            final(self).entries() == put(old(self).entries(), key, value),
            final(self).entries().len() == old(self).entries().len() + if old(self)@.contains_key(
                key,
            ) {
                0int
            } else {
                1int
            },
            final(self).tree_height() == old(self).tree_height() || final(self).tree_height()
                == old(self).tree_height() + 1,
            final(self).tree_height() == old(self).tree_height() + 1
                ==> final(self).root_node().slots() == 2,
            final(self).tree_height() == old(self).tree_height() + 1 <==> old(
                self,
            ).root_node().overflows(key),
            root_inserted(old(self).root_node(), final(self).root_node(), key, value),
            old(self)@.contains_key(key) ==> final(self).tree_height() == old(self).tree_height(),
            old(self)@.contains_key(key) ==> final(self).root_node().same_keys(
                old(self).root_node(),
            ),
    {
        proof {
            lemma_height_bound(self.root.root);
            lemma_wf_ascending(self.root.root);
            lemma_put_map(self.entries(), key, value);
            lemma_rank(keys_of(self.entries()), key);
            if holds(self.entries(), key) {
                lemma_present_fits(self.root.root, key);
            }
        }
        let r = self.root.insert(key, value);
        proof {
            if holds(old(self).entries(), key) {
                lemma_overwrite_keeps_shape(old(self).root.root, self.root.root, key, value);
            }
        }
        if r.is_none() {
            self.length = self.length + 1;
        }
        r
    }
}

} // verus!
