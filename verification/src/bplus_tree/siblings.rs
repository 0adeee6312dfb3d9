//! What holds of the children of one node and the separators between them,
//! and how it is kept when a child changes, splits, or the children are cut
//! in two or joined.

use crate::bplus_tree::bplus_tree::parts_of;
use crate::bplus_tree::bplus_tree::siblings_wf;
use crate::bplus_tree::bplus_tree::BoxedNode;
use crate::bplus_tree::bplus_tree::NodeRef;
use crate::bplus_tree::entries::all_above;
use crate::bplus_tree::entries::all_at_most;
use crate::bplus_tree::entries::all_below;
use crate::bplus_tree::entries::del;
use crate::bplus_tree::entries::find;
use crate::bplus_tree::entries::flat;
use crate::bplus_tree::entries::holds;
use crate::bplus_tree::entries::ascending;
use crate::bplus_tree::entries::keys_of;
use crate::bplus_tree::entries::lemma_flat_ascending;
use crate::bplus_tree::entries::lemma_concat_bounds;
use crate::bplus_tree::entries::lemma_flat_concat;
use crate::bplus_tree::entries::lemma_flat_member;
use crate::bplus_tree::entries::lemma_flat_single;
use crate::bplus_tree::entries::lemma_flat_split;
use crate::bplus_tree::entries::lemma_focus;
use crate::bplus_tree::entries::lemma_rank;
use crate::bplus_tree::entries::lemma_separated_focus;
use crate::bplus_tree::entries::put;
use crate::bplus_tree::entries::rank;
use crate::bplus_tree::order::group_key_order;
use crate::bplus_tree::order::key_le;
use crate::bplus_tree::order::key_lt;
use crate::bplus_tree::order::lawful_keys;
use vstd::prelude::*;

verus! {

broadcast use group_key_order;

/// What the children hold follows the children through an update, an
/// insertion, a removal, a cut and a concatenation.
pub proof fn lemma_parts<K: Ord + Clone, V>(children: Seq<NodeRef<K, V>>)
    ensures
        parts_of(children).len() == children.len(),
        forall|i: int, c: NodeRef<K, V>|
            0 <= i < children.len() ==> #[trigger] parts_of(children.update(i, c)) == parts_of(
                children,
            ).update(i, c.entries()),
        forall|i: int, c: NodeRef<K, V>|
            0 <= i <= children.len() ==> #[trigger] parts_of(children.insert(i, c)) == parts_of(
                children,
            ).insert(i, c.entries()),
        forall|i: int|
            0 <= i < children.len() ==> #[trigger] parts_of(children.remove(i)) == parts_of(
                children,
            ).remove(i),
        forall|a: int, b: int|
            0 <= a <= b <= children.len() ==> #[trigger] parts_of(children.subrange(a, b))
                == parts_of(children).subrange(a, b),
        forall|more: Seq<NodeRef<K, V>>| #[trigger]
            parts_of(children + more) == parts_of(children) + parts_of(more),
{
    assert forall|i: int, c: NodeRef<K, V>| 0 <= i < children.len() implies #[trigger] parts_of(
        children.update(i, c),
    ) == parts_of(children).update(i, c.entries()) by {
        assert(parts_of(children.update(i, c)) =~= parts_of(children).update(i, c.entries()));
    }
    assert forall|i: int, c: NodeRef<K, V>| 0 <= i <= children.len() implies #[trigger] parts_of(
        children.insert(i, c),
    ) == parts_of(children).insert(i, c.entries()) by {
        assert(parts_of(children.insert(i, c)) =~= parts_of(children).insert(i, c.entries()));
    }
    assert forall|i: int| 0 <= i < children.len() implies #[trigger] parts_of(children.remove(i))
        == parts_of(children).remove(i) by {
        assert(parts_of(children.remove(i)) =~= parts_of(children).remove(i));
    }
    assert forall|a: int, b: int| 0 <= a <= b <= children.len() implies #[trigger] parts_of(
        children.subrange(a, b),
    ) == parts_of(children).subrange(a, b) by {
        assert(parts_of(children.subrange(a, b)) =~= parts_of(children).subrange(a, b));
    }
    assert forall|more: Seq<NodeRef<K, V>>| #[trigger]
        parts_of(children + more) == parts_of(children) + parts_of(more) by {
        assert(parts_of(children + more) =~= parts_of(children) + parts_of(more));
    }
}

/// Looking up, binding or removing `k` below a node concerns only the
/// child at the rank of `k` among the separators.
pub proof fn lemma_descend<K: Ord + Clone, V>(keys: Seq<K>, children: Seq<NodeRef<K, V>>, k: K)
    requires
        lawful_keys::<K>(),
        siblings_wf(keys, children),
    ensures
        ({
            let i = rank(keys, k);
            let parts = parts_of(children);
            let before = flat(parts.subrange(0, i));
            let after = flat(parts.subrange(i + 1, parts.len() as int));
            let mid = children[i].entries();
            let whole = flat(parts);
            &&& 0 <= i < children.len()
            &&& i > 0 ==> key_lt(keys[i - 1], k)
            &&& i < keys.len() ==> key_le(k, keys[i])
            &&& i < keys.len() ==> all_at_most(mid, keys[i])
            &&& i > 0 ==> all_above(mid, keys[i - 1])
            &&& whole == before + mid + after
            &&& all_below(before, k)
            &&& all_above(after, k)
            &&& find(whole, k) == find(mid, k)
            &&& holds(whole, k) == holds(mid, k)
            &&& del(whole, k) == before + del(mid, k) + after
            &&& forall|v: V| put(whole, k, v) == before + #[trigger] put(mid, k, v) + after
        }),
{
    lemma_rank(keys, k);
    let i = rank(keys, k);
    let parts = parts_of(children);
    lemma_flat_split(parts, i);
    lemma_separated_focus(keys, parts, k);
    let before = flat(parts.subrange(0, i));
    let after = flat(parts.subrange(i + 1, parts.len() as int));
    lemma_focus(before, parts[i], after, k);
    if i > 0 {
        assert(key_lt(keys[i - 1], k));
    }
}

/// One child gives way to another that holds keys within the same
/// separators.
pub proof fn lemma_replace_child<K: Ord + Clone, V>(
    keys: Seq<K>,
    children: Seq<NodeRef<K, V>>,
    i: int,
    c: NodeRef<K, V>,
)
    requires
        lawful_keys::<K>(),
        siblings_wf(keys, children),
        0 <= i < children.len(),
        c.wf(),
        c.height == children[i].height,
        i < keys.len() ==> all_at_most(c.entries(), keys[i]),
        i > 0 ==> all_above(c.entries(), keys[i - 1]),
    ensures
        siblings_wf(keys, children.update(i, c)),
        flat(parts_of(children.update(i, c))) == flat(parts_of(children).subrange(0, i))
            + c.entries() + flat(
            parts_of(children).subrange(i + 1, children.len() as int),
        ),
{
    lemma_parts(children);
    let parts = parts_of(children);
    let next = children.update(i, c);
    let nparts = parts_of(next);
    assert(nparts == parts.update(i, c.entries()));
    lemma_flat_split(nparts, i);
    assert(nparts.subrange(0, i) =~= parts.subrange(0, i));
    assert(nparts.subrange(i + 1, nparts.len() as int) =~= parts.subrange(
        i + 1,
        parts.len() as int,
    ));
    assert forall|j: int| 0 <= j < keys.len() implies all_at_most(#[trigger] nparts[j], keys[j]) by {
        if j != i {
            assert(nparts[j] == parts[j]);
        }
    }
    assert forall|j: int| 0 < j < nparts.len() implies all_above(
        #[trigger] nparts[j],
        keys[j - 1],
    ) by {
        if j != i {
            assert(nparts[j] == parts[j]);
        }
    }
    assert forall|j: int| 0 <= j < next.len() implies {
        let d = #[trigger] next[j];
        d.wf() && d.height == next[0].height
    } by {
        assert(children[j].wf() && children[j].height == children[0].height);
        assert(children[i].height == children[0].height);
    }
}

/// One child gives way to two, a left and a right one with a separator
/// between them, that together hold keys within the separators of the one.
pub proof fn lemma_split_child<K: Ord + Clone, V>(
    keys: Seq<K>,
    children: Seq<NodeRef<K, V>>,
    i: int,
    left: NodeRef<K, V>,
    right: NodeRef<K, V>,
    sep: K,
)
    requires
        lawful_keys::<K>(),
        siblings_wf(keys, children),
        0 <= i < children.len(),
        left.wf(),
        right.wf(),
        left.height == children[i].height,
        right.height == children[i].height,
        left.entries().len() > 0,
        right.entries().len() > 0,
        all_at_most(left.entries(), sep),
        all_above(right.entries(), sep),
        i < keys.len() ==> all_at_most(left.entries() + right.entries(), keys[i]),
        i > 0 ==> all_above(left.entries() + right.entries(), keys[i - 1]),
    ensures
        siblings_wf(keys.insert(i, sep), children.update(i, left).insert(i + 1, right)),
        flat(parts_of(children.update(i, left).insert(i + 1, right))) == flat(
            parts_of(children).subrange(0, i),
        ) + (left.entries() + right.entries()) + flat(
            parts_of(children).subrange(i + 1, children.len() as int),
        ),
{
    lemma_parts(children);
    lemma_parts(children.update(i, left));
    lemma_concat_bounds(left.entries(), right.entries());
    let parts = parts_of(children);
    let next = children.update(i, left).insert(i + 1, right);
    let nkeys = keys.insert(i, sep);
    let nparts = parts_of(next);
    let a = parts.subrange(0, i);
    let b = parts.subrange(i + 1, parts.len() as int);
    let le = left.entries();
    let re = right.entries();
    assert(nparts =~= a + seq![le] + seq![re] + b);
    lemma_flat_concat(a + seq![le] + seq![re], b);
    lemma_flat_concat(a + seq![le], seq![re]);
    lemma_flat_concat(a, seq![le]);
    lemma_flat_single(le);
    lemma_flat_single(re);
    assert(flat(nparts) =~= flat(a) + (le + re) + flat(b));
    // the separator lies between the separators around the child
    let x = le[0];
    let y = re[0];
    assert(key_le(x.0, sep) && key_lt(sep, y.0));
    if i > 0 {
        assert(key_lt(keys[i - 1], x.0));
        assert(key_lt(keys[i - 1], sep));
    }
    if i < keys.len() {
        assert(key_le(y.0, keys[i]));
        assert(key_lt(sep, keys[i]));
    }
    assert forall|p: int, q: int| 0 <= p < q < nkeys.len() implies key_le(nkeys[p], nkeys[q]) by {
        if q < i {
            assert(key_le(keys[p], keys[q]));
        } else if q == i {
            assert(nkeys[p] == keys[p]);
            assert(p <= i - 1);
            if p < i - 1 {
                assert(key_le(keys[p], keys[i - 1]));
            }
            assert(key_lt(keys[i - 1], sep));
        } else if p < i {
            assert(nkeys[p] == keys[p] && nkeys[q] == keys[q - 1]);
            assert(key_le(keys[p], keys[q - 1]));
        } else if p == i {
            assert(nkeys[q] == keys[q - 1]);
            if i < q - 1 {
                assert(key_le(keys[i], keys[q - 1]));
            }
            assert(key_lt(sep, keys[i]));
        } else {
            assert(nkeys[p] == keys[p - 1] && nkeys[q] == keys[q - 1]);
            assert(key_le(keys[p - 1], keys[q - 1]));
        }
    }
    assert forall|j: int| 0 <= j < nkeys.len() implies all_at_most(#[trigger] nparts[j], nkeys[j]) by {
        if j < i {
            assert(nparts[j] == parts[j] && nkeys[j] == keys[j]);
        } else if j == i {
            assert(nparts[j] == le);
        } else if j == i + 1 {
            assert(nparts[j] == re && nkeys[j] == keys[i]);
        } else {
            assert(nparts[j] == parts[j - 1] && nkeys[j] == keys[j - 1]);
        }
    }
    assert forall|j: int| 0 < j < nparts.len() implies all_above(
        #[trigger] nparts[j],
        nkeys[j - 1],
    ) by {
        if j < i {
            assert(nparts[j] == parts[j] && nkeys[j - 1] == keys[j - 1]);
        } else if j == i {
            assert(nparts[j] == le && nkeys[j - 1] == keys[i - 1]);
        } else if j == i + 1 {
            assert(nparts[j] == re && nkeys[j - 1] == sep);
        } else {
            assert(nparts[j] == parts[j - 1] && nkeys[j - 1] == keys[j - 2]);
            assert(all_above(parts[j - 1], keys[j - 2]));
        }
    }
    assert forall|j: int| 0 <= j < next.len() implies {
        let d = #[trigger] next[j];
        d.wf() && d.height == next[0].height
    } by {
        assert(children[i].height == children[0].height);
        if j < i {
            assert(next[j] == children[j]);
        } else if j > i + 1 {
            assert(next[j] == children[j - 1]);
        }
        assert(next[0] == if i == 0 { left } else { children[0] });
    }
}


/// A well-formed subtree that has a key of its own, or children, holds a
/// pair.
pub proof fn lemma_nonempty<K: Ord + Clone, V>(node: NodeRef<K, V>)
    requires
        node.wf(),
        node.slots() >= 1,
    ensures
        node.entries().len() > 0,
    decreases node,
{
    match node.node {
        BoxedNode::Leaf(leaf) => {},
        BoxedNode::Internal(inner) => {
            let first = inner.children@[0];
            assert(first.filled());
            lemma_nonempty(first);
            lemma_flat_split(parts_of(inner.children@), 0);
        },
    }
}

/// The siblings cut in two at the separator `m`: each side is well formed
/// by itself, the left side holds keys up to the separator and the right
/// side keys after it.
pub proof fn lemma_cut<K: Ord + Clone, V>(keys: Seq<K>, children: Seq<NodeRef<K, V>>, m: int)
    requires
        lawful_keys::<K>(),
        siblings_wf(keys, children),
        0 <= m < keys.len(),
    ensures
        siblings_wf(keys.subrange(0, m), children.subrange(0, m + 1)),
        siblings_wf(
            keys.subrange(m + 1, keys.len() as int),
            children.subrange(m + 1, children.len() as int),
        ),
        flat(parts_of(children)) == flat(parts_of(children.subrange(0, m + 1))) + flat(
            parts_of(children.subrange(m + 1, children.len() as int)),
        ),
        all_at_most(flat(parts_of(children.subrange(0, m + 1))), keys[m]),
        all_above(flat(parts_of(children.subrange(m + 1, children.len() as int))), keys[m]),
{
    lemma_parts(children);
    let n = children.len() as int;
    let parts = parts_of(children);
    let lk = keys.subrange(0, m);
    let rk = keys.subrange(m + 1, keys.len() as int);
    let lc = children.subrange(0, m + 1);
    let rc = children.subrange(m + 1, n);
    let lp = parts_of(lc);
    let rp = parts_of(rc);
    assert(lp == parts.subrange(0, m + 1));
    assert(rp == parts.subrange(m + 1, n));
    assert(parts =~= lp + rp);
    lemma_flat_concat(lp, rp);
    assert forall|j: int| 0 <= j < lk.len() implies all_at_most(#[trigger] lp[j], lk[j]) by {
        assert(lp[j] == parts[j]);
    }
    assert forall|j: int| 0 < j < lp.len() implies all_above(#[trigger] lp[j], lk[j - 1]) by {
        assert(lp[j] == parts[j]);
    }
    assert forall|j: int| 0 <= j < rk.len() implies all_at_most(#[trigger] rp[j], rk[j]) by {
        assert(rp[j] == parts[j + m + 1]);
    }
    assert forall|j: int| 0 < j < rp.len() implies all_above(#[trigger] rp[j], rk[j - 1]) by {
        assert(rp[j] == parts[j + m + 1]);
    }
    assert forall|j: int| 0 <= j < lc.len() implies {
        let d = #[trigger] lc[j];
        d.wf() && d.height == lc[0].height
    } by {
        assert(lc[j] == children[j]);
    }
    assert forall|j: int| 0 <= j < rc.len() implies {
        let d = #[trigger] rc[j];
        d.wf() && d.height == rc[0].height
    } by {
        assert(rc[j] == children[j + m + 1]);
        assert(rc[0] == children[m + 1]);
    }
    assert forall|t: int| 0 <= t < flat(lp).len() implies key_le(
        (#[trigger] flat(lp)[t]).0,
        keys[m],
    ) by {
        let at = lemma_flat_member(lp, t);
        let j = at.0;
        assert(lp[j] == parts[j]);
        assert(all_at_most(parts[j], keys[j]));
        assert(key_le(parts[j][at.1].0, keys[j]));
        if j < m {
            assert(key_le(keys[j], keys[m]));
        }
    }
    assert forall|t: int| 0 <= t < flat(rp).len() implies key_lt(
        keys[m],
        (#[trigger] flat(rp)[t]).0,
    ) by {
        let at = lemma_flat_member(rp, t);
        let j = at.0 + m + 1;
        assert(rp[at.0] == parts[j]);
        assert(all_above(parts[j], keys[j - 1]));
        assert(key_lt(keys[j - 1], parts[j][at.1].0));
        if m < j - 1 {
            assert(key_le(keys[m], keys[j - 1]));
        }
    }
}

/// The fewest pairs that a filled subtree of a given height holds, counted
/// low: it doubles with each level.
pub open spec fn least_pairs(height: nat) -> nat
    decreases height,
{
    if height == 0 {
        1
    } else {
        2 * least_pairs((height - 1) as nat)
    }
}

/// A filled subtree holds at least `least_pairs` of its height.
pub proof fn lemma_least_pairs<K: Ord + Clone, V>(node: NodeRef<K, V>)
    requires
        node.wf(),
        node.filled(),
    ensures
        node.entries().len() >= least_pairs(node.height as nat),
    decreases node,
{
    match node.node {
        BoxedNode::Leaf(leaf) => {},
        BoxedNode::Internal(inner) => {
            let parts = parts_of(inner.children@);
            let first = inner.children@[0];
            let second = inner.children@[1];
            assert(first.filled() && second.filled());
            lemma_least_pairs(first);
            lemma_least_pairs(second);
            lemma_flat_split(parts, 0);
            let rest = parts.subrange(1, parts.len() as int);
            lemma_flat_split(rest, 0);
            assert(rest[0] == parts[1]);
        },
    }
}

/// Eight levels more hold 256 times as many pairs.
proof fn lemma_least_pairs_eight(h: nat)
    ensures
        least_pairs(h + 8) == 256 * least_pairs(h),
{
    assert(least_pairs(h + 1) == 2 * least_pairs(h));
    assert(least_pairs(h + 2) == 2 * least_pairs(h + 1));
    assert(least_pairs(h + 3) == 2 * least_pairs(h + 2));
    assert(least_pairs(h + 4) == 2 * least_pairs(h + 3));
    assert(least_pairs(h + 5) == 2 * least_pairs(h + 4));
    assert(least_pairs(h + 6) == 2 * least_pairs(h + 5));
    assert(least_pairs(h + 7) == 2 * least_pairs(h + 6));
    assert(least_pairs(h + 8) == 2 * least_pairs(h + 7));
}

/// From 64 levels on a filled subtree holds more pairs than can be counted.
pub proof fn lemma_least_pairs_large(h: nat)
    requires
        h >= 64,
    ensures
        least_pairs(h) > usize::MAX,
    decreases h,
{
    if h == 64 {
        lemma_least_pairs_eight(0);
        lemma_least_pairs_eight(8);
        lemma_least_pairs_eight(16);
        lemma_least_pairs_eight(24);
        lemma_least_pairs_eight(32);
        lemma_least_pairs_eight(40);
        lemma_least_pairs_eight(48);
        lemma_least_pairs_eight(56);
        assert(least_pairs(0) == 1);
    } else {
        lemma_least_pairs_large((h - 1) as nat);
    }
}

/// A well-formed tree whose pairs can be counted is at most 64 high.
pub proof fn lemma_height_bound<K: Ord + Clone, V>(root: NodeRef<K, V>)
    requires
        root.wf(),
        root.entries().len() <= usize::MAX,
    ensures
        root.height <= 64,
{
    match root.node {
        BoxedNode::Leaf(leaf) => {},
        BoxedNode::Internal(inner) => {
            let first = inner.children@[0];
            assert(first.filled());
            lemma_least_pairs(first);
            lemma_flat_split(parts_of(inner.children@), 0);
            if first.height >= 64 {
                lemma_least_pairs_large(first.height as nat);
            }
        },
    }
}

/// The pairs of a well-formed subtree ascend by their keys.
pub proof fn lemma_wf_ascending<K: Ord + Clone, V>(node: NodeRef<K, V>)
    requires
        lawful_keys::<K>(),
        node.wf(),
    ensures
        ascending(keys_of(node.entries())),
    decreases node,
{
    match node.node {
        BoxedNode::Leaf(leaf) => {
            assert(keys_of(leaf.entries()) =~= leaf.keys@);
        },
        BoxedNode::Internal(inner) => {
            let parts = parts_of(inner.children@);
            assert forall|j: int| 0 <= j < parts.len() implies ascending(
                keys_of(#[trigger] parts[j]),
            ) by {
                assert(inner.children@[j].wf());
                lemma_wf_ascending(inner.children@[j]);
            }
            lemma_flat_ascending(inner.keys@, parts);
        },
    }
}

/// Bounds on a concatenation of parts are bounds on each part.
pub proof fn lemma_part_bounds<K: Ord + Clone, V>(parts: Seq<Seq<(K, V)>>, j: int)
    requires
        0 <= j < parts.len(),
    ensures
        forall|hi: K| all_at_most(flat(parts), hi) ==> #[trigger] all_at_most(parts[j], hi),
        forall|lo: K| all_above(flat(parts), lo) ==> #[trigger] all_above(parts[j], lo),
{
    lemma_flat_split(parts, j);
    let a = flat(parts.subrange(0, j));
    let c = flat(parts.subrange(j + 1, parts.len() as int));
    lemma_concat_bounds(a + parts[j], c);
    lemma_concat_bounds(a, parts[j]);
}

/// Two runs of siblings of one height, the first holding keys up to `sep`
/// and the second keys after it, make one run with `sep` between them.
pub proof fn lemma_glue<K: Ord + Clone, V>(
    k1: Seq<K>,
    c1: Seq<NodeRef<K, V>>,
    sep: K,
    k2: Seq<K>,
    c2: Seq<NodeRef<K, V>>,
)
    requires
        lawful_keys::<K>(),
        siblings_wf(k1, c1),
        siblings_wf(k2, c2),
        c1[0].height == c2[0].height,
        forall|j: int| 0 <= j < c1.len() ==> (#[trigger] c1[j]).entries().len() > 0,
        forall|j: int| 0 <= j < c2.len() ==> (#[trigger] c2[j]).entries().len() > 0,
        all_at_most(flat(parts_of(c1)), sep),
        all_above(flat(parts_of(c2)), sep),
    ensures
        siblings_wf(k1 + seq![sep] + k2, c1 + c2),
        flat(parts_of(c1 + c2)) == flat(parts_of(c1)) + flat(parts_of(c2)),
{
    lemma_parts(c1);
    let head = parts_of(c1);
    let tail = parts_of(c2);
    let keys = k1 + seq![sep] + k2;
    let children = c1 + c2;
    let parts = parts_of(children);
    let n1 = c1.len() as int;
    assert(parts == head + tail);
    lemma_flat_concat(head, tail);
    assert forall|j: int| 0 <= j < head.len() implies all_at_most(#[trigger] head[j], sep) by {
        lemma_part_bounds(head, j);
    }
    assert forall|j: int| 0 <= j < tail.len() implies all_above(#[trigger] tail[j], sep) by {
        lemma_part_bounds(tail, j);
    }
    assert forall|a: int| 0 <= a < k1.len() implies key_lt(#[trigger] k1[a], sep) by {
        let part = head[a + 1];
        assert(part == c1[a + 1].entries());
        assert(all_above(part, k1[a]));
        assert(all_at_most(part, sep));
        assert(key_lt(k1[a], part[0].0));
        assert(key_le(part[0].0, sep));
    }
    assert forall|b: int| 0 <= b < k2.len() implies key_lt(sep, #[trigger] k2[b]) by {
        let part = tail[b];
        assert(part == c2[b].entries());
        assert(all_at_most(part, k2[b]));
        assert(all_above(part, sep));
        assert(key_lt(sep, part[0].0));
        assert(key_le(part[0].0, k2[b]));
    }
    assert forall|a: int, b: int| 0 <= a < b < keys.len() implies key_le(keys[a], keys[b]) by {
        if b < k1.len() {
            assert(key_le(k1[a], k1[b]));
        } else if b == k1.len() {
            assert(key_lt(k1[a], sep));
        } else if a < k1.len() {
            assert(key_lt(k1[a], sep));
            assert(key_lt(sep, k2[b - n1]));
        } else if a == k1.len() {
            assert(key_lt(sep, k2[b - n1]));
        } else {
            assert(key_le(k2[a - n1], k2[b - n1]));
        }
    }
    assert forall|j: int| 0 <= j < keys.len() implies all_at_most(#[trigger] parts[j], keys[j]) by {
        if j < k1.len() {
            assert(parts[j] == head[j]);
        } else if j == k1.len() {
            assert(parts[j] == head[j]);
        } else {
            assert(parts[j] == tail[j - n1]);
            assert(keys[j] == k2[j - n1]);
        }
    }
    assert forall|j: int| 0 < j < parts.len() implies all_above(#[trigger] parts[j], keys[j - 1]) by {
        if j < n1 {
            assert(parts[j] == head[j]);
            assert(keys[j - 1] == k1[j - 1]);
        } else if j == n1 {
            assert(parts[j] == tail[0]);
        } else {
            assert(parts[j] == tail[j - n1]);
            assert(keys[j - 1] == k2[j - n1 - 1]);
        }
    }
    assert forall|j: int| 0 <= j < children.len() implies {
        let d = #[trigger] children[j];
        d.wf() && d.height == children[0].height
    } by {
        if j < n1 {
            assert(children[j] == c1[j]);
        } else {
            assert(children[j] == c2[j - n1]);
        }
        assert(children[0] == c1[0]);
    }
}

/// Two neighbours give way to two that hold the same pairs between them,
/// split elsewhere, with the last key of the new left one as separator.
pub proof fn lemma_rebalance_pair<K: Ord + Clone, V>(
    keys: Seq<K>,
    children: Seq<NodeRef<K, V>>,
    l: int,
    left: NodeRef<K, V>,
    right: NodeRef<K, V>,
)
    requires
        lawful_keys::<K>(),
        siblings_wf(keys, children),
        0 <= l < keys.len(),
        left.wf(),
        right.wf(),
        left.height == children[0].height,
        right.height == children[0].height,
        left.entries().len() > 0,
        left.entries() + right.entries() == children[l].entries() + children[l + 1].entries(),
        ascending(keys_of(left.entries() + right.entries())),
    ensures
        siblings_wf(
            keys.update(l, left.entries().last().0),
            children.update(l, left).update(l + 1, right),
        ),
        flat(parts_of(children.update(l, left).update(l + 1, right))) == flat(parts_of(children)),
{
    lemma_parts(children);
    lemma_parts(children.update(l, left));
    let parts = parts_of(children);
    let next = children.update(l, left).update(l + 1, right);
    let nparts = parts_of(next);
    let le = left.entries();
    let re = right.entries();
    let both = le + re;
    let sep = le.last().0;
    let nkeys = keys.update(l, sep);
    let a = parts.subrange(0, l);
    let c = parts.subrange(l + 2, parts.len() as int);
    assert(parts =~= a + seq![parts[l]] + seq![parts[l + 1]] + c);
    assert(nparts =~= a + seq![le] + seq![re] + c);
    lemma_flat_concat(a + seq![parts[l]] + seq![parts[l + 1]], c);
    lemma_flat_concat(a + seq![parts[l]], seq![parts[l + 1]]);
    lemma_flat_concat(a, seq![parts[l]]);
    lemma_flat_concat(a + seq![le] + seq![re], c);
    lemma_flat_concat(a + seq![le], seq![re]);
    lemma_flat_concat(a, seq![le]);
    lemma_flat_single(le);
    lemma_flat_single(re);
    lemma_flat_single(parts[l]);
    lemma_flat_single(parts[l + 1]);
    assert(flat(nparts) =~= flat(a) + (le + re) + flat(c));
    assert(flat(parts) =~= flat(a) + (parts[l] + parts[l + 1]) + flat(c));
    // bounds of the pair as a whole
    lemma_concat_bounds(parts[l], parts[l + 1]);
    lemma_concat_bounds(le, re);
    assert(all_above(parts[l + 1], keys[l]));
    assert(all_at_most(parts[l], keys[l]));
    if l > 0 {
        assert(all_above(parts[l], keys[l - 1]));
        assert(key_le(keys[l - 1], keys[l]));
        assert forall|t: int| 0 <= t < parts[l + 1].len() implies key_lt(
            keys[l - 1],
            (#[trigger] parts[l + 1][t]).0,
        ) by {
            assert(key_lt(keys[l], parts[l + 1][t].0));
        }
        assert(all_above(both, keys[l - 1]));
    }
    if l + 1 < keys.len() {
        assert(all_at_most(parts[l + 1], keys[l + 1]));
        assert(key_le(keys[l], keys[l + 1]));
        assert forall|t: int| 0 <= t < parts[l].len() implies key_le(
            (#[trigger] parts[l][t]).0,
            keys[l + 1],
        ) by {
            assert(key_le(parts[l][t].0, keys[l]));
        }
        assert(all_at_most(both, keys[l + 1]));
    }
    let bk = keys_of(both);
    let n = le.len() as int;
    assert(both[n - 1] == le[n - 1]);
    assert(bk[n - 1] == sep);
    assert forall|t: int| 0 <= t < le.len() implies key_le((#[trigger] le[t]).0, sep) by {
        assert(both[t] == le[t]);
        assert(bk[t] == le[t].0);
    }
    assert forall|t: int| 0 <= t < re.len() implies key_lt(sep, (#[trigger] re[t]).0) by {
        assert(both[n + t] == re[t]);
        assert(bk[n + t] == re[t].0);
    }
    assert forall|p: int, q: int| 0 <= p < q < nkeys.len() implies key_le(nkeys[p], nkeys[q]) by {
        assert(key_le(keys[p], keys[q]));
        if q == l {
            assert(key_le(keys[p], keys[l - 1]));
            assert(key_lt(keys[l - 1], both[n - 1].0));
        } else if p == l {
            assert(key_le(both[n - 1].0, keys[l + 1]));
            assert(key_le(keys[l + 1], keys[q]));
        }
    }
    assert forall|j: int| 0 <= j < nkeys.len() implies all_at_most(#[trigger] nparts[j], nkeys[j]) by {
        if j != l && j != l + 1 {
            assert(nparts[j] == parts[j]);
        }
    }
    assert forall|j: int| 0 < j < nparts.len() implies all_above(
        #[trigger] nparts[j],
        nkeys[j - 1],
    ) by {
        if j != l && j != l + 1 {
            assert(nparts[j] == parts[j]);
            assert(all_above(parts[j], keys[j - 1]));
            if j - 1 == l {
                assert(false);
            }
        }
    }
    assert forall|j: int| 0 <= j < next.len() implies {
        let d = #[trigger] next[j];
        d.wf() && d.height == next[0].height
    } by {
        if j != l && j != l + 1 {
            assert(next[j] == children[j]);
        }
        assert(next[0].height == children[0].height);
    }
}

/// Two neighbours give way to one that holds the pairs of both, and the
/// separator between them goes.
pub proof fn lemma_merge_pair<K: Ord + Clone, V>(
    keys: Seq<K>,
    children: Seq<NodeRef<K, V>>,
    l: int,
    merged: NodeRef<K, V>,
)
    requires
        lawful_keys::<K>(),
        siblings_wf(keys, children),
        0 <= l < keys.len(),
        merged.wf(),
        merged.height == children[0].height,
        merged.entries() == children[l].entries() + children[l + 1].entries(),
    ensures
        siblings_wf(keys.remove(l), children.update(l, merged).remove(l + 1)),
        flat(parts_of(children.update(l, merged).remove(l + 1))) == flat(parts_of(children)),
{
    lemma_parts(children);
    lemma_parts(children.update(l, merged));
    let parts = parts_of(children);
    let next = children.update(l, merged).remove(l + 1);
    let nparts = parts_of(next);
    let me = merged.entries();
    let nkeys = keys.remove(l);
    let a = parts.subrange(0, l);
    let c = parts.subrange(l + 2, parts.len() as int);
    assert(parts =~= a + seq![parts[l]] + seq![parts[l + 1]] + c);
    assert(nparts =~= a + seq![me] + c);
    lemma_flat_concat(a + seq![parts[l]] + seq![parts[l + 1]], c);
    lemma_flat_concat(a + seq![parts[l]], seq![parts[l + 1]]);
    lemma_flat_concat(a, seq![parts[l]]);
    lemma_flat_concat(a + seq![me], c);
    lemma_flat_concat(a, seq![me]);
    lemma_flat_single(me);
    lemma_flat_single(parts[l]);
    lemma_flat_single(parts[l + 1]);
    assert(flat(nparts) =~= flat(a) + me + flat(c));
    assert(flat(parts) =~= flat(a) + (parts[l] + parts[l + 1]) + flat(c));
    lemma_concat_bounds(parts[l], parts[l + 1]);
    assert(all_above(parts[l + 1], keys[l]));
    assert(all_at_most(parts[l], keys[l]));
    if l > 0 {
        assert(all_above(parts[l], keys[l - 1]));
        assert(key_le(keys[l - 1], keys[l]));
        assert forall|t: int| 0 <= t < parts[l + 1].len() implies key_lt(
            keys[l - 1],
            (#[trigger] parts[l + 1][t]).0,
        ) by {
            assert(key_lt(keys[l], parts[l + 1][t].0));
        }
    }
    if l + 1 < keys.len() {
        assert(all_at_most(parts[l + 1], keys[l + 1]));
        assert(key_le(keys[l], keys[l + 1]));
        assert forall|t: int| 0 <= t < parts[l].len() implies key_le(
            (#[trigger] parts[l][t]).0,
            keys[l + 1],
        ) by {
            assert(key_le(parts[l][t].0, keys[l]));
        }
    }
    assert forall|p: int, q: int| 0 <= p < q < nkeys.len() implies key_le(nkeys[p], nkeys[q]) by {
        let from = if p < l { p } else { p + 1 };
        let upto = if q < l { q } else { q + 1 };
        assert(nkeys[p] == keys[from] && nkeys[q] == keys[upto]);
        assert(key_le(keys[from], keys[upto]));
    }
    assert forall|j: int| 0 <= j < nkeys.len() implies all_at_most(#[trigger] nparts[j], nkeys[j]) by {
        if j < l {
            assert(nparts[j] == parts[j] && nkeys[j] == keys[j]);
        } else if j == l {
            assert(nparts[j] == me && nkeys[j] == keys[l + 1]);
        } else {
            assert(nparts[j] == parts[j + 1] && nkeys[j] == keys[j + 1]);
        }
    }
    assert forall|j: int| 0 < j < nparts.len() implies all_above(
        #[trigger] nparts[j],
        nkeys[j - 1],
    ) by {
        if j < l {
            assert(nparts[j] == parts[j] && nkeys[j - 1] == keys[j - 1]);
        } else if j == l {
            assert(nparts[j] == me && nkeys[j - 1] == keys[l - 1]);
        } else {
            assert(nparts[j] == parts[j + 1] && nkeys[j - 1] == keys[j]);
            assert(all_above(parts[j + 1], keys[j]));
        }
    }
    assert forall|j: int| 0 <= j < next.len() implies {
        let d = #[trigger] next[j];
        d.wf() && d.height == next[0].height
    } by {
        if j < l {
            assert(next[j] == children[j]);
        } else if j > l {
            assert(next[j] == children[j + 1]);
        }
        assert(next[0].height == children[0].height);
    }
}

/// What two neighbours hold, read one after the other, ascends.
pub proof fn lemma_pair_ascending<K: Ord + Clone, V>(
    keys: Seq<K>,
    children: Seq<NodeRef<K, V>>,
    l: int,
)
    requires
        lawful_keys::<K>(),
        siblings_wf(keys, children),
        0 <= l < keys.len(),
    ensures
        ascending(keys_of(children[l].entries() + children[l + 1].entries())),
{
    let a = children[l].entries();
    let b = children[l + 1].entries();
    lemma_wf_ascending(children[l]);
    lemma_wf_ascending(children[l + 1]);
    let parts = parts_of(children);
    assert(parts[l] == a && parts[l + 1] == b);
    assert(all_at_most(parts[l], keys[l]));
    assert(all_above(parts[l + 1], keys[l]));
    let both = keys_of(a + b);
    let ak = keys_of(a);
    let bk = keys_of(b);
    assert forall|i: int, j: int| 0 <= i < j < both.len() implies key_lt(both[i], both[j]) by {
        if j < a.len() {
            assert(both[i] == ak[i] && both[j] == ak[j]);
        } else if i < a.len() {
            assert(both[i] == a[i].0 && both[j] == b[j - a.len()].0);
            assert(key_le(a[i].0, keys[l]));
            assert(key_lt(keys[l], b[j - a.len()].0));
        } else {
            assert(both[i] == bk[i - a.len()] && both[j] == bk[j - a.len()]);
        }
    }
}

/// Every subtree is like itself.
pub proof fn lemma_same_tree_reflexive<K: Ord + Clone, V>(node: NodeRef<K, V>)
    ensures
        node.same_tree(node),
    decreases node,
{
    match node.node {
        BoxedNode::Leaf(leaf) => {},
        BoxedNode::Internal(inner) => {
            assert forall|j: int| 0 <= j < inner.children.len() implies (
            #[trigger] inner.children[j]).same_tree(inner.children[j]) by {
                lemma_same_tree_reflexive(inner.children[j]);
            }
        },
    }
}

} // verus!
