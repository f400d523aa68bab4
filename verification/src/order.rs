//! Stable sorting of key/value pairs by key.
use vstd::prelude::*;
use vstd::laws_cmp::obeys_cmp;
use vstd::std_specs::cmp::OrdSpec;
use core::cmp::Ordering;

verus! {

/// `a` sorts no later than `b`.
pub open spec fn key_le<K: Ord>(a: K, b: K) -> bool {
    a.cmp_spec(&b) != Ordering::Greater
}

/// `a` and `b` compare equal.
pub open spec fn key_eq<K: Ord>(a: K, b: K) -> bool {
    a.cmp_spec(&b) == Ordering::Equal
}

/// `p` lists every position of `s` once, in an order in which the keys never
/// decrease and pairs with equal keys keep their relative order.
pub open spec fn stable_order<K: Ord, T>(s: Seq<(K, T)>, p: Seq<int>) -> bool {
    &&& p.len() == s.len()
    &&& forall|i: int| 0 <= i < p.len() ==> 0 <= #[trigger] p[i] < s.len()
    &&& forall|i: int, j: int| 0 <= i < j < p.len() ==> p[i] != p[j]
    &&& forall|i: int, j: int| 0 <= i < j < p.len() ==> key_le(s[p[i]].0, s[p[j]].0)
    &&& forall|i: int, j: int|
        0 <= i < j < p.len() && key_eq(s[p[i]].0, s[p[j]].0) ==> p[i] < p[j]
}

/// How two pairs compare by their keys.
pub fn key_order<K: Ord, T>(a: &(K, T), b: &(K, T)) -> (r: Ordering)
    ensures
        K::obeys_cmp_spec() ==> r == a.0.cmp_spec(&b.0),
{
    a.0.cmp(&b.0)
}

/// Sorts `v` by the first component of each pair with `slice::sort_by` of
/// std, which its documentation describes as a stable sort.
///
/// Claimed of it: the result holds the pairs of `v` in an order that is
/// stable and sorted by key, as `stable_order` states. Its `requires` asks
/// that the key type be a total order, as std's documentation asks of the
/// comparison.
#[verifier::external_body]
pub fn sort_pairs_by_key<K: Ord, T>(v: &mut Vec<(K, T)>)
    requires
        obeys_cmp::<K>(),
    ensures
        exists|p: Seq<int>|
            stable_order(old(v)@, p) && final(v)@ == p.map_values(|i: int| old(v)@[i]),
{
    v.sort_by(|a, b| key_order(a, b));
}

} // verus!
