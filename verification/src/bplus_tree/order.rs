//! The order on keys that the tree relies on.
//!
//! Every comparison the tree makes goes through this module, and every
//! ordering fact its proofs use is one of the lemmas below.

use core::cmp::Ordering;
use vstd::laws_cmp::obeys_cmp;
use vstd::laws_eq::obeys_concrete_eq;
use vstd::laws_eq::obeys_eq_spec_properties;
use vstd::laws_cmp::obeys_partial_cmp_spec_properties;
use vstd::laws_cmp::obeys_cmp_partial_ord;
use vstd::laws_cmp::obeys_cmp_ord;
use vstd::prelude::*;
use vstd::std_specs::cmp::OrdSpec;
use vstd::std_specs::cmp::PartialEqSpec;
use vstd::std_specs::cmp::PartialOrdSpec;

verus! {

/// What the tree asks of its key type: comparison is a total order that
/// agrees with equality of values, and cloning a key yields an equal key.
pub open spec fn lawful_keys<K: Ord + Clone>() -> bool {
    &&& obeys_cmp::<K>()
    &&& obeys_concrete_eq::<K>()
    &&& forall|a: K, b: K| cloned::<K>(a, b) ==> a == b
}

/// `a` orders strictly before `b`.
pub open spec fn key_lt<K: Ord>(a: K, b: K) -> bool {
    a.cmp_spec(&b) == Ordering::Less
}

/// `a` orders before `b` or is `b`.
pub open spec fn key_le<K: Ord>(a: K, b: K) -> bool {
    key_lt(a, b) || a == b
}

/// No key orders before itself.
pub broadcast proof fn lemma_lt_irreflexive<K: Ord + Clone>(a: K)
    requires
        lawful_keys::<K>(),
    ensures
        !#[trigger] key_lt(a, a),
{
    reveal(obeys_eq_spec_properties);
    reveal(obeys_partial_cmp_spec_properties);
    reveal(obeys_cmp_partial_ord);
    reveal(obeys_cmp_ord);
    reveal(obeys_concrete_eq);
    assert(a.partial_cmp_spec(&a) == Some(a.cmp_spec(&a)));
    assert(a.eq_spec(&a));
}

/// Of two distinct keys exactly one orders before the other.
pub broadcast proof fn lemma_lt_total<K: Ord + Clone>(a: K, b: K)
    requires
        lawful_keys::<K>(),
    ensures
        #[trigger] key_lt(a, b) <==> !key_lt(b, a) && a != b,
{
    reveal(obeys_eq_spec_properties);
    reveal(obeys_partial_cmp_spec_properties);
    reveal(obeys_cmp_partial_ord);
    reveal(obeys_cmp_ord);
    reveal(obeys_concrete_eq);
    assert(a.partial_cmp_spec(&b) == Some(a.cmp_spec(&b)));
    assert(b.partial_cmp_spec(&a) == Some(b.cmp_spec(&a)));
    assert(a.eq_spec(&b) <==> a == b);
}

/// The strict order is transitive.
pub broadcast proof fn lemma_lt_transitive<K: Ord + Clone>(a: K, b: K, c: K)
    requires
        lawful_keys::<K>(),
        #[trigger] key_lt(a, b),
        #[trigger] key_lt(b, c),
    ensures
        key_lt(a, c),
{
    reveal(obeys_eq_spec_properties);
    reveal(obeys_partial_cmp_spec_properties);
    reveal(obeys_cmp_partial_ord);
    reveal(obeys_cmp_ord);
    reveal(obeys_concrete_eq);
    assert(a.partial_cmp_spec(&b) == Some(a.cmp_spec(&b)));
    assert(b.partial_cmp_spec(&c) == Some(b.cmp_spec(&c)));
    assert(a.partial_cmp_spec(&c) == Some(a.cmp_spec(&c)));
}

pub broadcast group group_key_order {
    lemma_lt_irreflexive,
    lemma_lt_total,
    lemma_lt_transitive,
}

/// Whether `a` orders strictly before `b`.
pub fn less<K: Ord + Clone>(a: &K, b: &K) -> (r: bool)
    requires
        lawful_keys::<K>(),
    ensures
        r == key_lt(*a, *b),
{
    proof {
        reveal(obeys_cmp_ord);
    }
    match a.cmp(b) {
        Ordering::Less => true,
        _ => false,
    }
}

/// Whether `a` and `b` are the same key.
pub fn same<K: Ord + Clone>(a: &K, b: &K) -> (r: bool)
    requires
        lawful_keys::<K>(),
    ensures
        r == (*a == *b),
{
    proof {
        lemma_lt_total(*a, *b);
        lemma_lt_total(*b, *a);
        lemma_lt_irreflexive(*a);
        reveal(obeys_cmp_partial_ord);
        reveal(obeys_cmp_ord);
        reveal(obeys_partial_cmp_spec_properties);
        reveal(obeys_concrete_eq);
        assert(a.partial_cmp_spec(b) == Some(a.cmp_spec(b)));
    }
    match a.cmp(b) {
        Ordering::Equal => true,
        _ => false,
    }
}

/// Whether `a` orders before `b` or is `b`.
pub fn less_or_same<K: Ord + Clone>(a: &K, b: &K) -> (r: bool)
    requires
        lawful_keys::<K>(),
    ensures
        r == key_le(*a, *b),
{
    proof {
        lemma_lt_total(*a, *b);
        lemma_lt_total(*b, *a);
        lemma_lt_irreflexive(*a);
        reveal(obeys_cmp_partial_ord);
        reveal(obeys_cmp_ord);
        reveal(obeys_partial_cmp_spec_properties);
        reveal(obeys_concrete_eq);
        assert(a.partial_cmp_spec(b) == Some(a.cmp_spec(b)));
    }
    match a.cmp(b) {
        Ordering::Greater => false,
        _ => true,
    }
}

/// A fresh key equal to `k`.
pub fn duplicate<K: Ord + Clone>(k: &K) -> (r: K)
    requires
        lawful_keys::<K>(),
    ensures
        r == *k,
{
    let r = k.clone();
    assert(cloned::<K>(*k, r));
    r
}

/// `u8` satisfies what the tree asks of a key type.
pub proof fn lemma_u8_lawful()
    ensures
        lawful_keys::<u8>(),
{
    broadcast use vstd::laws_cmp::group_laws_cmp;
    broadcast use vstd::laws_eq::group_laws_eq;

}

/// `u16` satisfies what the tree asks of a key type.
pub proof fn lemma_u16_lawful()
    ensures
        lawful_keys::<u16>(),
{
    broadcast use vstd::laws_cmp::group_laws_cmp;
    broadcast use vstd::laws_eq::group_laws_eq;

}

/// `u32` satisfies what the tree asks of a key type.
pub proof fn lemma_u32_lawful()
    ensures
        lawful_keys::<u32>(),
{
    broadcast use vstd::laws_cmp::group_laws_cmp;
    broadcast use vstd::laws_eq::group_laws_eq;

}

/// `u64` satisfies what the tree asks of a key type.
pub proof fn lemma_u64_lawful()
    ensures
        lawful_keys::<u64>(),
{
    broadcast use vstd::laws_cmp::group_laws_cmp;
    broadcast use vstd::laws_eq::group_laws_eq;

}

/// `u128` satisfies what the tree asks of a key type.
pub proof fn lemma_u128_lawful()
    ensures
        lawful_keys::<u128>(),
{
    broadcast use vstd::laws_cmp::group_laws_cmp;
    broadcast use vstd::laws_eq::group_laws_eq;

}

/// `usize` satisfies what the tree asks of a key type.
pub proof fn lemma_usize_lawful()
    ensures
        lawful_keys::<usize>(),
{
    broadcast use vstd::laws_cmp::group_laws_cmp;
    broadcast use vstd::laws_eq::group_laws_eq;

}

/// `i8` satisfies what the tree asks of a key type.
pub proof fn lemma_i8_lawful()
    ensures
        lawful_keys::<i8>(),
{
    broadcast use vstd::laws_cmp::group_laws_cmp;
    broadcast use vstd::laws_eq::group_laws_eq;

}

/// `i16` satisfies what the tree asks of a key type.
pub proof fn lemma_i16_lawful()
    ensures
        lawful_keys::<i16>(),
{
    broadcast use vstd::laws_cmp::group_laws_cmp;
    broadcast use vstd::laws_eq::group_laws_eq;

}

/// `i32` satisfies what the tree asks of a key type.
pub proof fn lemma_i32_lawful()
    ensures
        lawful_keys::<i32>(),
{
    broadcast use vstd::laws_cmp::group_laws_cmp;
    broadcast use vstd::laws_eq::group_laws_eq;

}

/// `i64` satisfies what the tree asks of a key type.
pub proof fn lemma_i64_lawful()
    ensures
        lawful_keys::<i64>(),
{
    broadcast use vstd::laws_cmp::group_laws_cmp;
    broadcast use vstd::laws_eq::group_laws_eq;

}

/// `i128` satisfies what the tree asks of a key type.
pub proof fn lemma_i128_lawful()
    ensures
        lawful_keys::<i128>(),
{
    broadcast use vstd::laws_cmp::group_laws_cmp;
    broadcast use vstd::laws_eq::group_laws_eq;

}

/// `isize` satisfies what the tree asks of a key type.
pub proof fn lemma_isize_lawful()
    ensures
        lawful_keys::<isize>(),
{
    broadcast use vstd::laws_cmp::group_laws_cmp;
    broadcast use vstd::laws_eq::group_laws_eq;

}

} // verus!
