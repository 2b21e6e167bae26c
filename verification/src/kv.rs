//! A small theory of association sequences: key-value pairs with pairwise
//! distinct keys, read as a finite map. The player table, the monument table
//! and the connection registry are all stored as such sequences and specified
//! through the map they denote.

use vstd::prelude::*;

verus! {

/// True when some pair of the sequence carries the key.
pub open spec fn has_key<V>(s: Seq<(u32, V)>, k: u32) -> bool {
    exists|i: int| 0 <= i < s.len() && (#[trigger] s[i]).0 == k
}

/// An index of the pair carrying the key, meaningful only under [`has_key`].
pub open spec fn index_of<V>(s: Seq<(u32, V)>, k: u32) -> int {
    choose|i: int| 0 <= i < s.len() && (#[trigger] s[i]).0 == k
}

/// True when no two pairs carry the same key.
pub open spec fn unique_keys<V>(s: Seq<(u32, V)>) -> bool {
    forall|i: int, j: int|
        0 <= i < j < s.len() ==> (#[trigger] s[i]).0 != (#[trigger] s[j]).0
}

/// The sequence read as a map from keys to values.
pub open spec fn assoc_map<V>(s: Seq<(u32, V)>) -> Map<u32, V> {
    Map::new(|k: u32| has_key(s, k), |k: u32| s[index_of(s, k)].1)
}

/// Each pair of a sequence with distinct keys is the map entry of its key.
pub proof fn lemma_assoc_at<V>(s: Seq<(u32, V)>, i: int)
    requires
        unique_keys(s),
        0 <= i < s.len(),
    ensures
        assoc_map(s).dom().contains(s[i].0),
        assoc_map(s)[s[i].0] == s[i].1,
{
    let k = s[i].0;
    assert(has_key(s, k));
    let j = index_of(s, k);
    assert(0 <= j < s.len() && s[j].0 == k);
    assert(j == i);
}

/// A key that no pair carries is not in the map.
pub proof fn lemma_assoc_absent<V>(s: Seq<(u32, V)>, k: u32)
    requires
        !has_key(s, k),
    ensures
        !assoc_map(s).dom().contains(k),
{
}

/// Appending a pair with a fresh key inserts it into the map.
pub proof fn lemma_assoc_push<V>(s: Seq<(u32, V)>, k: u32, v: V)
    requires
        unique_keys(s),
        !has_key(s, k),
    ensures
        unique_keys(s.push((k, v))),
        assoc_map(s.push((k, v))) == assoc_map(s).insert(k, v),
{
    let s2 = s.push((k, v));
    assert forall|i: int, j: int| 0 <= i < j < s2.len() implies (#[trigger] s2[i]).0 != (
    #[trigger] s2[j]).0 by {
        if j < s.len() {
            assert(s2[i] == s[i] && s2[j] == s[j]);
        } else {
            assert(s2[j] == (k, v));
            assert(s2[i] == s[i]);
            assert(s[i].0 != k) by {
                if s[i].0 == k {
                    assert(has_key(s, k));
                }
            }
        }
    }
    assert forall|k2: u32| true implies #[trigger] has_key(s2, k2) == (has_key(s, k2) || k2
        == k) by {
        if has_key(s2, k2) {
            let i = index_of(s2, k2);
            assert(0 <= i < s2.len() && s2[i].0 == k2);
            if i < s.len() {
                assert(s2[i] == s[i]);
                assert(has_key(s, k2));
            } else {
                assert(s2[i] == (k, v));
            }
        }
        if has_key(s, k2) {
            let i = index_of(s, k2);
            assert(0 <= i < s.len() && s[i].0 == k2);
            assert(s2[i] == s[i]);
            assert(has_key(s2, k2));
        }
        if k2 == k {
            assert(s2[s.len() as int] == (k, v));
            assert(has_key(s2, k2));
        }
    }
    assert forall|k2: u32| #[trigger] assoc_map(s2).dom().contains(k2) implies assoc_map(s2)[k2]
        == assoc_map(s).insert(k, v)[k2] by {
        let i = index_of(s2, k2);
        assert(0 <= i < s2.len() && s2[i].0 == k2);
        if k2 == k {
            assert(i == s.len()) by {
                if i < s.len() {
                    assert(s2[i] == s[i]);
                    assert(has_key(s, k));
                }
            }
            assert(s2[i].1 == v);
        } else {
            assert(i < s.len());
            assert(s2[i] == s[i]);
            lemma_assoc_at(s, i);
            let j = index_of(s, k2);
            assert(0 <= j < s.len() && s[j].0 == k2);
            assert(j == i);
        }
    }
    assert(assoc_map(s2) =~= assoc_map(s).insert(k, v));
}

/// Replacing the value at one index updates the map entry of that key.
pub proof fn lemma_assoc_update<V>(s: Seq<(u32, V)>, i: int, v: V)
    requires
        unique_keys(s),
        0 <= i < s.len(),
    ensures
        unique_keys(s.update(i, (s[i].0, v))),
        assoc_map(s.update(i, (s[i].0, v))) == assoc_map(s).insert(s[i].0, v),
{
    let k = s[i].0;
    let s2 = s.update(i, (k, v));
    assert(forall|j: int| 0 <= j < s.len() ==> (#[trigger] s2[j]).0 == s[j].0);
    assert(unique_keys(s2));
    assert forall|k2: u32| true implies #[trigger] has_key(s2, k2) == has_key(s, k2) by {
        if has_key(s2, k2) {
            let a = index_of(s2, k2);
            assert(0 <= a < s.len() && s2[a].0 == k2);
            assert(s[a].0 == k2);
            assert(has_key(s, k2));
        }
        if has_key(s, k2) {
            let a = index_of(s, k2);
            assert(0 <= a < s.len() && s[a].0 == k2);
            assert(s2[a].0 == k2);
            assert(has_key(s2, k2));
        }
    }
    assert forall|k2: u32| #[trigger] assoc_map(s2).dom().contains(k2) implies assoc_map(s2)[k2]
        == assoc_map(s).insert(k, v)[k2] by {
        let a = index_of(s2, k2);
        assert(0 <= a < s2.len() && s2[a].0 == k2);
        if k2 == k {
            assert(a == i) by {
                if a != i {
                    assert(s2[a].0 == s[a].0);
                    assert(s[a].0 != s[i].0);
                }
            }
            assert(s2[a].1 == v);
        } else {
            assert(a != i);
            assert(s2[a] == s[a]);
            lemma_assoc_at(s, a);
            let b = index_of(s, k2);
            assert(0 <= b < s.len() && s[b].0 == k2);
            assert(b == a);
        }
    }
    assert(assoc_map(s2) =~= assoc_map(s).insert(k, v));
}

/// Removing the pair at one index removes the map entry of its key.
pub proof fn lemma_assoc_remove<V>(s: Seq<(u32, V)>, i: int)
    requires
        unique_keys(s),
        0 <= i < s.len(),
    ensures
        unique_keys(s.remove(i)),
        assoc_map(s.remove(i)) == assoc_map(s).remove(s[i].0),
{
    let k = s[i].0;
    let s2 = s.remove(i);
    assert(s2.len() == s.len() - 1);
    assert(forall|j: int| 0 <= j < i ==> #[trigger] s2[j] == s[j]);
    assert(forall|j: int| i <= j < s2.len() ==> #[trigger] s2[j] == s[j + 1]);
    assert forall|a: int, b: int| 0 <= a < b < s2.len() implies (#[trigger] s2[a]).0 != (
    #[trigger] s2[b]).0 by {
        let a0 = if a < i { a } else { a + 1 };
        let b0 = if b < i { b } else { b + 1 };
        assert(s2[a] == s[a0] && s2[b] == s[b0]);
        assert(0 <= a0 < b0 < s.len());
    }
    assert forall|k2: u32| true implies #[trigger] has_key(s2, k2) == (has_key(s, k2) && k2
        != k) by {
        if has_key(s2, k2) {
            let a = index_of(s2, k2);
            assert(0 <= a < s2.len() && s2[a].0 == k2);
            let a0 = if a < i { a } else { a + 1 };
            assert(s2[a] == s[a0]);
            assert(has_key(s, k2));
            assert(k2 != k) by {
                if k2 == k {
                    assert(s[a0].0 == s[i].0 && a0 != i);
                }
            }
        }
        if has_key(s, k2) && k2 != k {
            let a = index_of(s, k2);
            assert(0 <= a < s.len() && s[a].0 == k2);
            assert(a != i);
            if a < i {
                assert(s2[a] == s[a]);
                assert(has_key(s2, k2));
            } else {
                assert(s2[a - 1] == s[a]);
                assert(has_key(s2, k2));
            }
        }
    }
    assert forall|k2: u32| #[trigger] assoc_map(s2).dom().contains(k2) implies assoc_map(s2)[k2]
        == assoc_map(s).remove(k)[k2] by {
        let a = index_of(s2, k2);
        assert(0 <= a < s2.len() && s2[a].0 == k2);
        let a0 = if a < i { a } else { a + 1 };
        assert(s2[a] == s[a0]);
        lemma_assoc_at(s, a0);
        let b = index_of(s, k2);
        assert(0 <= b < s.len() && s[b].0 == k2);
        assert(b == a0);
    }
    assert(assoc_map(s2) =~= assoc_map(s).remove(k));
}

/// Transforming every value in place, each as a function of its key, keeps
/// the keys and transforms the map pointwise.
pub proof fn lemma_assoc_transform<V>(
    s: Seq<(u32, V)>,
    s2: Seq<(u32, V)>,
    f: spec_fn(u32, V) -> V,
)
    requires
        unique_keys(s),
        s2.len() == s.len(),
        forall|j: int|
            0 <= j < s.len() ==> (#[trigger] s2[j]).0 == s[j].0 && s2[j].1 == f(s[j].0, s[j].1),
    ensures
        unique_keys(s2),
        assoc_map(s2).dom() == assoc_map(s).dom(),
        forall|k: u32|
            assoc_map(s).dom().contains(k) ==> #[trigger] assoc_map(s2)[k] == f(
                k,
                assoc_map(s)[k],
            ),
{
    assert(unique_keys(s2));
    assert forall|k2: u32| true implies #[trigger] has_key(s2, k2) == has_key(s, k2) by {
        if has_key(s2, k2) {
            let a = index_of(s2, k2);
            assert(0 <= a < s.len() && s2[a].0 == k2);
            assert(s[a].0 == k2);
            assert(has_key(s, k2));
        }
        if has_key(s, k2) {
            let a = index_of(s, k2);
            assert(0 <= a < s.len() && s[a].0 == k2);
            assert(s2[a].0 == k2);
            assert(has_key(s2, k2));
        }
    }
    assert(assoc_map(s2).dom() =~= assoc_map(s).dom());
    assert forall|k: u32| assoc_map(s).dom().contains(k) implies #[trigger] assoc_map(s2)[k] == f(
        k,
        assoc_map(s)[k],
    ) by {
        let a = index_of(s2, k);
        assert(0 <= a < s2.len() && s2[a].0 == k);
        assert(s[a].0 == k);
        lemma_assoc_at(s, a);
        assert(s2[a].1 == f(k, s[a].1));
        lemma_assoc_at(s2, a);
    }
}

} // verus!
