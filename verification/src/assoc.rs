//! Association sequences: `(key, value)` pairs with unique `u64` keys.
//!
//! The index stores its maps as vectors of pairs; these spec functions and
//! lemmas give such a sequence its map reading.

use vstd::prelude::*;

verus! {

/// No two pairs carry the same key.
pub open spec fn keys_unique<V>(s: Seq<(u64, V)>) -> bool {
    forall|i: int, j: int| 0 <= i < j < s.len() ==> s[i].0 != s[j].0
}

/// The value stored under `k`, if any.
pub open spec fn lookup<V>(s: Seq<(u64, V)>, k: u64) -> Option<V>
    decreases s.len(),
{
    if s.len() == 0 {
        None
    } else if s[0].0 == k {
        Some(s[0].1)
    } else {
        lookup(s.drop_first(), k)
    }
}

/// `lookup` reads the entry at the index where `k` sits.
pub proof fn lemma_lookup_at<V>(s: Seq<(u64, V)>, k: u64, i: int)
    requires
        0 <= i < s.len(),
        s[i].0 == k,
        forall|j: int| 0 <= j < s.len() && j != i ==> (#[trigger] s[j]).0 != k,
    ensures
        lookup(s, k) == Some(s[i].1),
    decreases s.len(),
{
    if i == 0 {
    } else {
        assert(s[0].0 != k);
        lemma_lookup_at(s.drop_first(), k, i - 1);
    }
}

/// A key that sits at no index is not found.
pub proof fn lemma_lookup_absent<V>(s: Seq<(u64, V)>, k: u64)
    requires
        forall|j: int| 0 <= j < s.len() ==> (#[trigger] s[j]).0 != k,
    ensures
        lookup(s, k) == None::<V>,
    decreases s.len(),
{
    if s.len() > 0 {
        lemma_lookup_absent(s.drop_first(), k);
    }
}

/// A key that is found sits at some index.
pub proof fn lemma_lookup_some_index<V>(s: Seq<(u64, V)>, k: u64)
    requires
        lookup(s, k) is Some,
    ensures
        exists|i: int| 0 <= i < s.len() && (#[trigger] s[i]).0 == k,
    decreases s.len(),
{
    if s.len() == 0 {
    } else if s[0].0 == k {
        assert(0 <= 0 < s.len() && s[0].0 == k);
    } else {
        lemma_lookup_some_index(s.drop_first(), k);
        let i = choose|i: int|
            0 <= i < s.drop_first().len() && (#[trigger] s.drop_first()[i]).0 == k;
        assert(s[i + 1].0 == k);
    }
}

/// A key that is not found sits at no index.
pub proof fn lemma_lookup_some_index_converse<V>(s: Seq<(u64, V)>, k: u64)
    requires
        lookup(s, k) is None,
    ensures
        forall|j: int| 0 <= j < s.len() ==> (#[trigger] s[j]).0 != k,
    decreases s.len(),
{
    if s.len() > 0 {
        assert(s[0].0 != k);
        lemma_lookup_some_index_converse(s.drop_first(), k);
        assert forall|j: int| 0 <= j < s.len() implies (#[trigger] s[j]).0 != k by {
            if j > 0 {
                assert(s.drop_first()[j - 1] == s[j]);
            }
        }
    }
}

/// Updating the entry at `k`'s index changes only `k`'s value.
pub proof fn lemma_lookup_update_one<V>(s: Seq<(u64, V)>, k: u64, i: int, v: V, k2: u64)
    requires
        0 <= i < s.len(),
        s[i].0 == k,
        forall|j: int| 0 <= j < s.len() && j != i ==> (#[trigger] s[j]).0 != k,
    ensures
        lookup(s.update(i, (k, v)), k2) == if k2 == k {
            Some(v)
        } else {
            lookup(s, k2)
        },
    decreases s.len(),
{
    let t = s.update(i, (k, v));
    if i == 0 {
        assert(t[0] == (k, v));
        assert(t.drop_first() =~= s.drop_first());
    } else {
        assert(s[0].0 != k);
        assert(t[0] == s[0]);
        assert(t.drop_first() =~= s.drop_first().update(i - 1, (k, v)));
        lemma_lookup_update_one(s.drop_first(), k, i - 1, v, k2);
    }
}

/// Appending a fresh key binds it and changes no other binding.
pub proof fn lemma_lookup_push_one<V>(s: Seq<(u64, V)>, k: u64, v: V, k2: u64)
    requires
        forall|j: int| 0 <= j < s.len() ==> (#[trigger] s[j]).0 != k,
    ensures
        lookup(s.push((k, v)), k2) == if k2 == k {
            Some(v)
        } else {
            lookup(s, k2)
        },
    decreases s.len(),
{
    let t = s.push((k, v));
    if s.len() == 0 {
        assert(t[0] == (k, v));
        assert(t.drop_first() =~= Seq::<(u64, V)>::empty());
        assert(lookup(t.drop_first(), k2) == None::<V>);
        assert(lookup(s, k2) == None::<V>);
    } else {
        assert(t[0] == s[0]);
        assert(t.drop_first() =~= s.drop_first().push((k, v)));
        assert(forall|j: int|
            0 <= j < s.drop_first().len() ==> (#[trigger] s.drop_first()[j]).0 != k);
        lemma_lookup_push_one(s.drop_first(), k, v, k2);
    }
}

} // verus!
