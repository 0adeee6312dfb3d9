//! Ordered sequences of key/value pairs: the mathematical model of what a
//! node, a subtree and the whole tree hold.
//!
//! A leaf is modelled by the sequence of its pairs, a subtree by the
//! concatenation of the sequences of its leaves from left to right. The
//! operations of the tree are stated as operations on such sequences.

use crate::bplus_tree::order::group_key_order;
use crate::bplus_tree::order::key_le;
use crate::bplus_tree::order::key_lt;
use crate::bplus_tree::order::lawful_keys;
use vstd::prelude::*;

verus! {

broadcast use group_key_order;

/// The keys of a sequence of pairs, in the same order.
pub open spec fn keys_of<K, V>(s: Seq<(K, V)>) -> Seq<K> {
    Seq::new(s.len(), |i: int| s[i].0)
}

/// The values of a sequence of pairs, in the same order.
pub open spec fn vals_of<K, V>(s: Seq<(K, V)>) -> Seq<V> {
    Seq::new(s.len(), |i: int| s[i].1)
}

/// Each key orders strictly before every later key.
pub open spec fn ascending<K: Ord>(keys: Seq<K>) -> bool {
    forall|i: int, j: int| 0 <= i < j < keys.len() ==> key_lt(keys[i], keys[j])
}

/// Each key orders before every later key, or equals it.
pub open spec fn non_descending<K: Ord>(keys: Seq<K>) -> bool {
    forall|i: int, j: int| 0 <= i < j < keys.len() ==> key_le(keys[i], keys[j])
}

/// The first index whose key is `k` or orders after `k`; the length where
/// there is none. This one rule places a key inside a leaf and chooses the
/// child to descend into.
pub open spec fn rank<K: Ord>(keys: Seq<K>, k: K) -> int
    decreases keys.len(),
{
    if keys.len() == 0 {
        0
    } else if key_le(k, keys[0]) {
        0
    } else {
        1 + rank(keys.subrange(1, keys.len() as int), k)
    }
}

/// `p` is the first index of `keys` whose key is `k` or orders after it.
pub open spec fn is_rank<K: Ord>(keys: Seq<K>, k: K, p: int) -> bool {
    &&& 0 <= p <= keys.len()
    &&& forall|i: int| 0 <= i < p ==> key_lt(#[trigger] keys[i], k)
    &&& p < keys.len() ==> key_le(k, keys[p])
}

/// `rank` is the only index that `is_rank` accepts.
pub proof fn lemma_rank<K: Ord + Clone>(keys: Seq<K>, k: K)
    requires
        lawful_keys::<K>(),
    ensures
        is_rank(keys, k, rank(keys, k)),
        forall|p: int| is_rank(keys, k, p) ==> p == rank(keys, k),
    decreases keys.len(),
{
    if keys.len() == 0 {
    } else if key_le(k, keys[0]) {
        assert forall|p: int| is_rank(keys, k, p) implies p == 0 by {
            if p > 0 {
                assert(key_lt(keys[0], k));
            }
        }
    } else {
        let rest = keys.subrange(1, keys.len() as int);
        lemma_rank(rest, k);
        let r = rank(rest, k);
        assert forall|i: int| 0 <= i < r + 1 implies key_lt(#[trigger] keys[i], k) by {
            if i > 0 {
                assert(keys[i] == rest[i - 1]);
            }
        }
        if r + 1 < keys.len() {
            assert(keys[r + 1] == rest[r]);
        }
        assert forall|p: int| is_rank(keys, k, p) implies p == r + 1 by {
            assert(p > 0);
            assert forall|i: int| 0 <= i < p - 1 implies key_lt(#[trigger] rest[i], k) by {
                assert(rest[i] == keys[i + 1]);
            }
            if p - 1 < rest.len() {
                assert(rest[p - 1] == keys[p]);
            }
            assert(is_rank(rest, k, p - 1));
        }
    }
}


/// In an ascending sequence a key stands at its own rank.
pub proof fn lemma_rank_of_member<K: Ord + Clone>(keys: Seq<K>, i: int)
    requires
        lawful_keys::<K>(),
        ascending(keys),
        0 <= i < keys.len(),
    ensures
        rank(keys, keys[i]) == i,
{
    lemma_rank(keys, keys[i]);
    assert(is_rank(keys, keys[i], i));
}

/// Whether `s` holds a pair under the key `k`, looked up at the rank of `k`.
pub open spec fn holds<K: Ord, V>(s: Seq<(K, V)>, k: K) -> bool {
    let p = rank(keys_of(s), k);
    p < s.len() && s[p].0 == k
}

/// The value that `s` holds under `k`, if any.
pub open spec fn find<K: Ord, V>(s: Seq<(K, V)>, k: K) -> Option<V> {
    if holds(s, k) {
        Some(s[rank(keys_of(s), k)].1)
    } else {
        None
    }
}

/// `s` with `k` bound to `v`: the pair under `k` is replaced where there is
/// one, otherwise the new pair enters at the rank of `k`.
pub open spec fn put<K: Ord, V>(s: Seq<(K, V)>, k: K, v: V) -> Seq<(K, V)> {
    let p = rank(keys_of(s), k);
    if holds(s, k) {
        s.update(p, (k, v))
    } else {
        s.insert(p, (k, v))
    }
}

/// `s` without the pair under `k`; `s` itself where it holds none.
pub open spec fn del<K: Ord, V>(s: Seq<(K, V)>, k: K) -> Seq<(K, V)> {
    if holds(s, k) {
        s.remove(rank(keys_of(s), k))
    } else {
        s
    }
}

/// The finite map that a sequence of pairs stands for.
pub open spec fn to_map<K: Ord, V>(s: Seq<(K, V)>) -> Map<K, V> {
    Map::new(|k: K| holds(s, k), |k: K| s[rank(keys_of(s), k)].1)
}

/// In an ascending sequence, `holds` is membership among the keys.
pub proof fn lemma_holds<K: Ord + Clone, V>(s: Seq<(K, V)>, k: K)
    requires
        lawful_keys::<K>(),
        ascending(keys_of(s)),
    ensures
        holds(s, k) <==> exists|i: int| 0 <= i < s.len() && (#[trigger] s[i]).0 == k,
{
    let keys = keys_of(s);
    lemma_rank(keys, k);
    if exists|i: int| 0 <= i < s.len() && (#[trigger] s[i]).0 == k {
        let i = choose|i: int| 0 <= i < s.len() && (#[trigger] s[i]).0 == k;
        assert(keys[i] == k);
        lemma_rank_of_member(keys, i);
    }
    if holds(s, k) {
        let p = rank(keys, k);
        assert(s[p].0 == k);
    }
}

/// Binding a key keeps an ascending sequence ascending.
pub proof fn lemma_put_ascending<K: Ord + Clone, V>(s: Seq<(K, V)>, k: K, v: V)
    requires
        lawful_keys::<K>(),
        ascending(keys_of(s)),
    ensures
        ascending(keys_of(put(s, k, v))),
{
    let keys = keys_of(s);
    lemma_rank(keys, k);
    let p = rank(keys, k);
    let t = put(s, k, v);
    let tk = keys_of(t);
    if holds(s, k) {
        assert(tk =~= keys);
    } else {
        assert forall|i: int, j: int| 0 <= i < j < tk.len() implies key_lt(tk[i], tk[j]) by {
            if j < p {
                assert(tk[i] == keys[i] && tk[j] == keys[j]);
            } else if j == p {
                assert(tk[i] == keys[i]);
            } else if i < p {
                assert(tk[i] == keys[i] && tk[j] == keys[j - 1]);
            } else if i == p {
                assert(tk[j] == keys[j - 1]);
                assert(key_le(k, keys[p]));
                if j - 1 > p {
                    assert(key_lt(keys[p], keys[j - 1]));
                }
            } else {
                assert(tk[i] == keys[i - 1] && tk[j] == keys[j - 1]);
            }
        }
    }
}

/// Removing a key keeps an ascending sequence ascending.
pub proof fn lemma_del_ascending<K: Ord + Clone, V>(s: Seq<(K, V)>, k: K)
    requires
        lawful_keys::<K>(),
        ascending(keys_of(s)),
    ensures
        ascending(keys_of(del(s, k))),
{
    let keys = keys_of(s);
    lemma_rank(keys, k);
    let p = rank(keys, k);
    let t = del(s, k);
    let tk = keys_of(t);
    if holds(s, k) {
        assert forall|i: int, j: int| 0 <= i < j < tk.len() implies key_lt(tk[i], tk[j]) by {
            let a = if i < p { i } else { i + 1 };
            let b = if j < p { j } else { j + 1 };
            assert(tk[i] == keys[a] && tk[j] == keys[b]);
        }
    }
}

/// What an ascending sequence holds after a key was bound.
pub proof fn lemma_put_find<K: Ord + Clone, V>(s: Seq<(K, V)>, k: K, v: V, q: K)
    requires
        lawful_keys::<K>(),
        ascending(keys_of(s)),
    ensures
        find(put(s, k, v), q) == if q == k { Some(v) } else { find(s, q) },
{
    let keys = keys_of(s);
    let t = put(s, k, v);
    let tk = keys_of(t);
    lemma_put_ascending(s, k, v);
    lemma_rank(keys, k);
    lemma_rank(keys, q);
    lemma_rank(tk, q);
    lemma_holds(s, q);
    lemma_holds(t, q);
    let p = rank(keys, k);
    assert(t[p] == (k, v));
    assert(tk[p] == k);
    lemma_rank_of_member(tk, p);
    if q != k {
        if holds(s, q) {
            let i = rank(keys, q);
            assert(s[i].0 == q);
            let i2 = if holds(s, k) || i < p { i } else { i + 1 };
            assert(t[i2] == s[i]);
            assert(tk[i2] == q);
            lemma_rank_of_member(tk, i2);
        } else if holds(t, q) {
            let j = rank(tk, q);
            assert(t[j].0 == q);
            assert(j != p);
            let j2 = if holds(s, k) || j < p { j } else { j - 1 };
            assert(s[j2] == t[j]);
            assert(false);
        }
    }
}

/// What an ascending sequence holds after a key was removed.
pub proof fn lemma_del_find<K: Ord + Clone, V>(s: Seq<(K, V)>, k: K, q: K)
    requires
        lawful_keys::<K>(),
        ascending(keys_of(s)),
    ensures
        find(del(s, k), q) == if q == k { None } else { find(s, q) },
{
    let keys = keys_of(s);
    let t = del(s, k);
    let tk = keys_of(t);
    lemma_del_ascending(s, k);
    lemma_rank(keys, k);
    lemma_rank(keys, q);
    lemma_rank(tk, q);
    lemma_holds(s, q);
    lemma_holds(t, q);
    lemma_holds(s, k);
    let p = rank(keys, k);
    if holds(s, k) {
        if holds(t, q) {
            let j = rank(tk, q);
            assert(t[j].0 == q);
            let j2 = if j < p { j } else { j + 1 };
            assert(s[j2] == t[j]);
            assert(keys[j2] == q);
            lemma_rank_of_member(keys, j2);
            assert(keys[p] == k);
            assert(q != k);
        } else if holds(s, q) && q != k {
            let i = rank(keys, q);
            assert(s[i].0 == q);
            assert(i != p);
            let i2 = if i < p { i } else { i - 1 };
            assert(t[i2] == s[i]);
            assert(false);
        }
    }
}

/// Binding a key in the sequence is inserting it into the map.
pub proof fn lemma_put_map<K: Ord + Clone, V>(s: Seq<(K, V)>, k: K, v: V)
    requires
        lawful_keys::<K>(),
        ascending(keys_of(s)),
    ensures
        to_map(put(s, k, v)) == to_map(s).insert(k, v),
{
    let t = put(s, k, v);
    assert forall|q: K| #[trigger] to_map(t).contains_key(q) == to_map(s).insert(k, v).contains_key(q)
        && (to_map(t).contains_key(q) ==> to_map(t)[q] == to_map(s).insert(k, v)[q]) by {
        lemma_put_find(s, k, v, q);
    }
    assert(to_map(t) =~= to_map(s).insert(k, v));
}

/// Removing a key from the sequence is removing it from the map.
pub proof fn lemma_del_map<K: Ord + Clone, V>(s: Seq<(K, V)>, k: K)
    requires
        lawful_keys::<K>(),
        ascending(keys_of(s)),
    ensures
        to_map(del(s, k)) == to_map(s).remove(k),
{
    let t = del(s, k);
    assert forall|q: K| #[trigger] to_map(t).contains_key(q) == to_map(s).remove(k).contains_key(q)
        && (to_map(t).contains_key(q) ==> to_map(t)[q] == to_map(s).remove(k)[q]) by {
        lemma_del_find(s, k, q);
    }
    assert(to_map(t) =~= to_map(s).remove(k));
}


/// Every key of `s` orders strictly before `k`.
pub open spec fn all_below<K: Ord, V>(s: Seq<(K, V)>, k: K) -> bool {
    forall|t: int| 0 <= t < s.len() ==> key_lt((#[trigger] s[t]).0, k)
}

/// Every key of `s` is `k` or orders before it.
pub open spec fn all_at_most<K: Ord, V>(s: Seq<(K, V)>, k: K) -> bool {
    forall|t: int| 0 <= t < s.len() ==> key_le((#[trigger] s[t]).0, k)
}

/// Every key of `s` orders strictly after `k`.
pub open spec fn all_above<K: Ord, V>(s: Seq<(K, V)>, k: K) -> bool {
    forall|t: int| 0 <= t < s.len() ==> key_lt(k, (#[trigger] s[t]).0)
}

/// Between pairs that all order before `k` and pairs that all order after
/// it, the rank of `k` is its rank in the middle part, moved by the length
/// of what stands before.
pub proof fn lemma_focus_rank<K: Ord + Clone, V>(
    before: Seq<(K, V)>,
    mid: Seq<(K, V)>,
    after: Seq<(K, V)>,
    k: K,
)
    requires
        lawful_keys::<K>(),
        all_below(before, k),
        all_above(after, k),
    ensures
        0 <= rank(keys_of(mid), k) <= mid.len(),
        rank(keys_of(before + mid + after), k) == before.len() + rank(keys_of(mid), k),
        holds(before + mid + after, k) == holds(mid, k),
        holds(mid, k) ==> (before + mid + after)[before.len() + rank(keys_of(mid), k)]
            == mid[rank(keys_of(mid), k)],
{
    let all = before + mid + after;
    let ak = keys_of(all);
    let mk = keys_of(mid);
    lemma_rank(mk, k);
    lemma_rank(ak, k);
    let r = rank(mk, k);
    let n = before.len() as int;
    assert forall|i: int| 0 <= i < n + r implies key_lt(#[trigger] ak[i], k) by {
        if i < n {
            assert(all[i] == before[i]);
        } else {
            assert(all[i] == mid[i - n]);
            assert(ak[i] == mk[i - n]);
        }
    }
    if n + r < ak.len() {
        if r < mid.len() {
            assert(all[n + r] == mid[r]);
            assert(ak[n + r] == mk[r]);
        } else {
            assert(all[n + r] == after[0]);
        }
    }
    assert(is_rank(ak, k, n + r));
}

/// Between pairs that all order before `k` and pairs that all order after
/// it, looking up, binding and removing `k` concern the middle part alone.
pub proof fn lemma_focus<K: Ord + Clone, V>(
    before: Seq<(K, V)>,
    mid: Seq<(K, V)>,
    after: Seq<(K, V)>,
    k: K,
)
    requires
        lawful_keys::<K>(),
        all_below(before, k),
        all_above(after, k),
    ensures
        rank(keys_of(before + mid + after), k) == before.len() + rank(keys_of(mid), k),
        holds(before + mid + after, k) == holds(mid, k),
        find(before + mid + after, k) == find(mid, k),
        del(before + mid + after, k) == before + del(mid, k) + after,
        forall|v: V| put(before + mid + after, k, v) == before + #[trigger] put(mid, k, v) + after,
{
    lemma_focus_rank(before, mid, after, k);
    let all = before + mid + after;
    let r = rank(keys_of(mid), k);
    let n = before.len() as int;
    assert(del(all, k) == before + del(mid, k) + after) by {
        if holds(mid, k) {
            let lhs = all.remove(n + r);
            let rhs = before + mid.remove(r) + after;
            assert(lhs.len() == rhs.len());
            assert forall|i: int| 0 <= i < lhs.len() implies lhs[i] == rhs[i] by {
                if i < n {
                } else if i < n + r {
                    assert(rhs[i] == mid.remove(r)[i - n]);
                } else if i < n + mid.len() - 1 {
                    assert(rhs[i] == mid.remove(r)[i - n]);
                } else {
                }
            }
            assert(lhs =~= rhs);
        }
    }
    assert forall|v: V| put(all, k, v) == before + #[trigger] put(mid, k, v) + after by {
        if holds(mid, k) {
            let lhs = all.update(n + r, (k, v));
            let rhs = before + mid.update(r, (k, v)) + after;
            assert(lhs.len() == rhs.len());
            assert forall|i: int| 0 <= i < lhs.len() implies lhs[i] == rhs[i] by {
                if n <= i < n + mid.len() {
                    assert(rhs[i] == mid.update(r, (k, v))[i - n]);
                }
            }
            assert(lhs =~= rhs);
        } else {
            let lhs = all.insert(n + r, (k, v));
            let rhs = before + mid.insert(r, (k, v)) + after;
            assert(lhs.len() == rhs.len());
            assert forall|i: int| 0 <= i < lhs.len() implies lhs[i] == rhs[i] by {
                if n <= i < n + mid.len() + 1 {
                    assert(rhs[i] == mid.insert(r, (k, v))[i - n]);
                }
            }
            assert(lhs =~= rhs);
        }
    }
}

/// Bounds on the keys of a sequence still hold once a key within the same
/// bounds was bound in it.
pub proof fn lemma_put_bounds<K: Ord + Clone, V>(s: Seq<(K, V)>, k: K, v: V)
    requires
        lawful_keys::<K>(),
    ensures
        forall|hi: K| all_at_most(s, hi) && key_le(k, hi) ==> #[trigger] all_at_most(put(s, k, v), hi),
        forall|lo: K| all_above(s, lo) && key_lt(lo, k) ==> #[trigger] all_above(put(s, k, v), lo),
        put(s, k, v).len() >= s.len(),
        put(s, k, v).len() > 0,
{
    lemma_rank(keys_of(s), k);
    let p = rank(keys_of(s), k);
    let t = put(s, k, v);
    assert forall|u: int| 0 <= u < t.len() implies t[u] == (k, v) || exists|w: int|
        0 <= w < s.len() && s[w] == #[trigger] t[u] by {
        if u < p {
            assert(s[u] == t[u]);
        } else if u > p {
            if holds(s, k) {
                assert(s[u] == t[u]);
            } else {
                assert(s[u - 1] == t[u]);
            }
        }
    }
    assert forall|hi: K| all_at_most(s, hi) && key_le(k, hi) implies #[trigger] all_at_most(
        t,
        hi,
    ) by {
        assert forall|u: int| 0 <= u < t.len() implies key_le((#[trigger] t[u]).0, hi) by {
            if t[u] != (k, v) {
                let w = choose|w: int| 0 <= w < s.len() && s[w] == t[u];
                assert(key_le(s[w].0, hi));
            }
        }
    }
    assert forall|lo: K| all_above(s, lo) && key_lt(lo, k) implies #[trigger] all_above(t, lo) by {
        assert forall|u: int| 0 <= u < t.len() implies key_lt(lo, (#[trigger] t[u]).0) by {
            if t[u] != (k, v) {
                let w = choose|w: int| 0 <= w < s.len() && s[w] == t[u];
                assert(key_lt(lo, s[w].0));
            }
        }
    }
}

/// Bounds on the keys of a sequence still hold once a key was removed.
pub proof fn lemma_del_bounds<K: Ord + Clone, V>(s: Seq<(K, V)>, k: K)
    requires
        lawful_keys::<K>(),
    ensures
        forall|hi: K| all_at_most(s, hi) ==> #[trigger] all_at_most(del(s, k), hi),
        forall|lo: K| all_above(s, lo) ==> #[trigger] all_above(del(s, k), lo),
        del(s, k).len() == if holds(s, k) { s.len() - 1 } else { s.len() as int },
{
    lemma_rank(keys_of(s), k);
    let p = rank(keys_of(s), k);
    let t = del(s, k);
    assert forall|u: int| 0 <= u < t.len() implies exists|w: int|
        0 <= w < s.len() && s[w] == #[trigger] t[u] by {
        if holds(s, k) && u >= p {
            assert(s[u + 1] == t[u]);
        } else {
            assert(s[u] == t[u]);
        }
    }
    assert forall|hi: K| all_at_most(s, hi) implies #[trigger] all_at_most(t, hi) by {
        assert forall|u: int| 0 <= u < t.len() implies key_le((#[trigger] t[u]).0, hi) by {
            let w = choose|w: int| 0 <= w < s.len() && s[w] == t[u];
            assert(key_le(s[w].0, hi));
        }
    }
    assert forall|lo: K| all_above(s, lo) implies #[trigger] all_above(t, lo) by {
        assert forall|u: int| 0 <= u < t.len() implies key_lt(lo, (#[trigger] t[u]).0) by {
            let w = choose|w: int| 0 <= w < s.len() && s[w] == t[u];
            assert(key_lt(lo, s[w].0));
        }
    }
}

/// Bounds on a concatenation are bounds on both of its parts.
pub proof fn lemma_concat_bounds<K: Ord + Clone, V>(a: Seq<(K, V)>, b: Seq<(K, V)>)
    ensures
        forall|hi: K| #[trigger] all_at_most(a + b, hi) <==> all_at_most(a, hi) && all_at_most(b, hi),
        forall|lo: K| #[trigger] all_above(a + b, lo) <==> all_above(a, lo) && all_above(b, lo),
        forall|hi: K| #[trigger] all_below(a + b, hi) <==> all_below(a, hi) && all_below(b, hi),
{
    let c = a + b;
    assert forall|hi: K| #[trigger] all_at_most(c, hi) <==> all_at_most(a, hi) && all_at_most(b, hi) by {
        if all_at_most(c, hi) {
            assert forall|t: int| 0 <= t < a.len() implies key_le((#[trigger] a[t]).0, hi) by {
                assert(c[t] == a[t]);
            }
            assert forall|t: int| 0 <= t < b.len() implies key_le((#[trigger] b[t]).0, hi) by {
                assert(c[t + a.len()] == b[t]);
            }
        }
        if all_at_most(a, hi) && all_at_most(b, hi) {
            assert forall|t: int| 0 <= t < c.len() implies key_le((#[trigger] c[t]).0, hi) by {
                if t < a.len() {
                    assert(c[t] == a[t]);
                } else {
                    assert(c[t] == b[t - a.len()]);
                }
            }
        }
    }
    assert forall|lo: K| #[trigger] all_above(c, lo) <==> all_above(a, lo) && all_above(b, lo) by {
        if all_above(c, lo) {
            assert forall|t: int| 0 <= t < a.len() implies key_lt(lo, (#[trigger] a[t]).0) by {
                assert(c[t] == a[t]);
            }
            assert forall|t: int| 0 <= t < b.len() implies key_lt(lo, (#[trigger] b[t]).0) by {
                assert(c[t + a.len()] == b[t]);
            }
        }
        if all_above(a, lo) && all_above(b, lo) {
            assert forall|t: int| 0 <= t < c.len() implies key_lt(lo, (#[trigger] c[t]).0) by {
                if t < a.len() {
                    assert(c[t] == a[t]);
                } else {
                    assert(c[t] == b[t - a.len()]);
                }
            }
        }
    }
    assert forall|hi: K| #[trigger] all_below(c, hi) <==> all_below(a, hi) && all_below(b, hi) by {
        if all_below(c, hi) {
            assert forall|t: int| 0 <= t < a.len() implies key_lt((#[trigger] a[t]).0, hi) by {
                assert(c[t] == a[t]);
            }
            assert forall|t: int| 0 <= t < b.len() implies key_lt((#[trigger] b[t]).0, hi) by {
                assert(c[t + a.len()] == b[t]);
            }
        }
        if all_below(a, hi) && all_below(b, hi) {
            assert forall|t: int| 0 <= t < c.len() implies key_lt((#[trigger] c[t]).0, hi) by {
                if t < a.len() {
                    assert(c[t] == a[t]);
                } else {
                    assert(c[t] == b[t - a.len()]);
                }
            }
        }
    }
}

/// The concatenation of `parts`, first to last.
pub open spec fn flat<T>(parts: Seq<Seq<T>>) -> Seq<T>
    decreases parts.len(),
{
    if parts.len() == 0 {
        Seq::empty()
    } else {
        flat(parts.drop_last()) + parts.last()
    }
}

/// Concatenating two lists of parts concatenates what they hold.
pub proof fn lemma_flat_concat<T>(a: Seq<Seq<T>>, b: Seq<Seq<T>>)
    ensures
        flat(a + b) == flat(a) + flat(b),
    decreases b.len(),
{
    if b.len() == 0 {
        assert(a + b =~= a);
        assert(flat(a) + flat(b) =~= flat(a));
    } else {
        lemma_flat_concat(a, b.drop_last());
        assert((a + b).drop_last() =~= a + b.drop_last());
        assert((a + b).last() == b.last());
        assert(flat(a + b) =~= flat(a) + flat(b));
    }
}

/// A single part concatenates to itself.
pub proof fn lemma_flat_single<T>(x: Seq<T>)
    ensures
        flat(seq![x]) == x,
{
    let one = seq![x];
    assert(one.drop_last() =~= Seq::<Seq<T>>::empty());
    assert(flat(one.drop_last()) =~= Seq::<T>::empty());
    assert(flat(one) =~= x);
}

/// The concatenation, cut around the part at `i`.
pub proof fn lemma_flat_split<T>(parts: Seq<Seq<T>>, i: int)
    requires
        0 <= i < parts.len(),
    ensures
        flat(parts) == flat(parts.subrange(0, i)) + parts[i] + flat(
            parts.subrange(i + 1, parts.len() as int),
        ),
{
    let a = parts.subrange(0, i);
    let b = seq![parts[i]];
    let c = parts.subrange(i + 1, parts.len() as int);
    assert(parts =~= a + b + c);
    lemma_flat_concat(a + b, c);
    lemma_flat_concat(a, b);
    lemma_flat_single(parts[i]);
}

/// Each element of the concatenation stands in one of the parts.
pub proof fn lemma_flat_member<T>(parts: Seq<Seq<T>>, t: int) -> (at: (int, int))
    requires
        0 <= t < flat(parts).len(),
    ensures
        0 <= at.0 < parts.len(),
        0 <= at.1 < parts[at.0].len(),
        parts[at.0][at.1] == flat(parts)[t],
    decreases parts.len(),
{
    let init = parts.drop_last();
    if t < flat(init).len() {
        let at = lemma_flat_member(init, t);
        assert(init[at.0] == parts[at.0]);
        at
    } else {
        (parts.len() - 1, t - flat(init).len())
    }
}

/// The separators `keys` part the sequences `parts`: each part but the
/// last holds only keys up to its separator, each part but the first only
/// keys after the separator before it, and the separators do not descend.
pub open spec fn separated<K: Ord, V>(keys: Seq<K>, parts: Seq<Seq<(K, V)>>) -> bool {
    &&& parts.len() == keys.len() + 1
    &&& non_descending(keys)
    &&& forall|j: int| 0 <= j < keys.len() ==> all_at_most(#[trigger] parts[j], keys[j])
    &&& forall|j: int| 0 < j < parts.len() ==> all_above(#[trigger] parts[j], keys[j - 1])
}

/// Under separators, the parts before the rank of `k` hold only keys before
/// `k`, and the parts after it only keys after `k`.
pub proof fn lemma_separated_focus<K: Ord + Clone, V>(
    keys: Seq<K>,
    parts: Seq<Seq<(K, V)>>,
    k: K,
)
    requires
        lawful_keys::<K>(),
        separated(keys, parts),
    ensures
        all_below(flat(parts.subrange(0, rank(keys, k))), k),
        all_above(flat(parts.subrange(rank(keys, k) + 1, parts.len() as int)), k),
{
    lemma_rank(keys, k);
    let r = rank(keys, k);
    let left = parts.subrange(0, r);
    let right = parts.subrange(r + 1, parts.len() as int);
    assert forall|t: int| 0 <= t < flat(left).len() implies key_lt(
        (#[trigger] flat(left)[t]).0,
        k,
    ) by {
        let at = lemma_flat_member(left, t);
        let j = at.0;
        assert(left[j] == parts[j]);
        assert(all_at_most(parts[j], keys[j]));
        assert(key_le(parts[j][at.1].0, keys[j]));
        assert(key_lt(keys[j], k));
    }
    assert forall|t: int| 0 <= t < flat(right).len() implies key_lt(
        k,
        (#[trigger] flat(right)[t]).0,
    ) by {
        let at = lemma_flat_member(right, t);
        let j = at.0 + r + 1;
        assert(right[at.0] == parts[j]);
        assert(all_above(parts[j], keys[j - 1]));
        assert(key_lt(keys[j - 1], parts[j][at.1].0));
        assert(key_le(k, keys[r]));
        assert(key_le(keys[r], keys[j - 1]));
    }
}

/// Ascending parts under separators concatenate to an ascending sequence.
pub proof fn lemma_flat_ascending<K: Ord + Clone, V>(keys: Seq<K>, parts: Seq<Seq<(K, V)>>)
    requires
        lawful_keys::<K>(),
        separated(keys, parts),
        forall|j: int| 0 <= j < parts.len() ==> ascending(keys_of(#[trigger] parts[j])),
    ensures
        ascending(keys_of(flat(parts))),
    decreases parts.len(),
{
    let n = parts.len() as int;
    let init = parts.drop_last();
    let last = parts.last();
    if n == 1 {
        lemma_flat_single(last);
        assert(parts =~= seq![last]);
    } else {
        let ikeys = keys.drop_last();
        assert forall|j: int| 0 <= j < ikeys.len() implies all_at_most(
            #[trigger] init[j],
            ikeys[j],
        ) by {
            assert(init[j] == parts[j]);
        }
        assert forall|j: int| 0 < j < init.len() implies all_above(
            #[trigger] init[j],
            ikeys[j - 1],
        ) by {
            assert(init[j] == parts[j]);
        }
        assert forall|j: int| 0 <= j < init.len() implies ascending(keys_of(#[trigger] init[j])) by {
            assert(init[j] == parts[j]);
        }
        lemma_flat_ascending(ikeys, init);
        let sep = keys[n - 2];
        let head = flat(init);
        assert forall|t: int| 0 <= t < head.len() implies key_le((#[trigger] head[t]).0, sep) by {
            let at = lemma_flat_member(init, t);
            let j = at.0;
            assert(init[j] == parts[j]);
            assert(all_at_most(parts[j], keys[j]));
            assert(key_le(parts[j][at.1].0, keys[j]));
            assert(key_le(keys[j], sep));
        }
        assert(all_above(parts[n - 1], keys[n - 2]));
        let whole = keys_of(flat(parts));
        assert(flat(parts) == head + last);
        assert forall|a: int, b: int| 0 <= a < b < whole.len() implies key_lt(whole[a], whole[b]) by {
            let hk = keys_of(head);
            let lk = keys_of(last);
            if b < head.len() {
                assert(whole[a] == hk[a] && whole[b] == hk[b]);
            } else if a < head.len() {
                assert(whole[a] == head[a].0);
                assert(whole[b] == last[b - head.len()].0);
                assert(key_le(head[a].0, sep));
                assert(key_lt(sep, last[b - head.len()].0));
            } else {
                assert(whole[a] == lk[a - head.len()] && whole[b] == lk[b - head.len()]);
            }
        }
    }
}

} // verus!
