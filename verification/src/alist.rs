//! Spec-level association lists: sequences of key-value pairs with
//! unique keys. The tracker's maps are vectors of pairs whose models are
//! stated with these functions.
use vstd::prelude::*;

verus! {

/// No key occurs twice.
pub open spec fn al_unique<K, V>(s: Seq<(K, V)>) -> bool {
    forall|i: int, j: int|
        0 <= i < s.len() && 0 <= j < s.len() && i != j ==> s[i].0 != s[j].0
}

/// Some entry carries the key.
pub open spec fn al_contains<K, V>(s: Seq<(K, V)>, k: K) -> bool {
    exists|i: int| 0 <= i < s.len() && s[i].0 == k
}

/// The index of the entry carrying the key; meaningful only when the
/// key is present and the keys are unique.
pub open spec fn al_idx<K, V>(s: Seq<(K, V)>, k: K) -> int {
    choose|i: int| 0 <= i < s.len() && s[i].0 == k
}

/// The value stored under the key, if any.
pub open spec fn al_get<K, V>(s: Seq<(K, V)>, k: K) -> Option<V> {
    if al_contains(s, k) {
        Some(s[al_idx(s, k)].1)
    } else {
        None
    }
}

/// The list with `v` stored under `k`: the entry is replaced in place
/// when the key is present and appended otherwise.
pub open spec fn al_set<K, V>(s: Seq<(K, V)>, k: K, v: V) -> Seq<(K, V)> {
    if al_contains(s, k) {
        s.update(al_idx(s, k), (k, v))
    } else {
        s.push((k, v))
    }
}

/// The list without the entry carrying `k`, if there was one.
pub open spec fn al_remove<K, V>(s: Seq<(K, V)>, k: K) -> Seq<(K, V)> {
    if al_contains(s, k) {
        s.remove(al_idx(s, k))
    } else {
        s
    }
}

/// With unique keys, any index whose entry carries the key is the index
/// `al_idx` picks.
pub proof fn lemma_al_idx_unique<K, V>(s: Seq<(K, V)>, k: K, i: int)
    requires
        al_unique(s),
        0 <= i < s.len(),
        s[i].0 == k,
    ensures
        al_contains(s, k),
        al_idx(s, k) == i,
{
    assert(al_contains(s, k));
    let j = al_idx(s, k);
    assert(0 <= j < s.len() && s[j].0 == k);
}

/// Storing under a key keeps the keys unique.
pub proof fn lemma_al_set_unique<K, V>(s: Seq<(K, V)>, k: K, v: V)
    requires
        al_unique(s),
    ensures
        al_unique(al_set(s, k, v)),
{
    if al_contains(s, k) {
        let i = al_idx(s, k);
        assert(0 <= i < s.len() && s[i].0 == k);
    } else {
        assert forall|x: int, y: int|
            0 <= x < s.len() + 1 && 0 <= y < s.len() + 1 && x != y implies al_set(s, k, v)[x].0
            != al_set(s, k, v)[y].0 by {
            if x < s.len() && y < s.len() {
            } else if x == s.len() {
                assert(al_set(s, k, v)[y].0 == s[y].0);
            } else {
                assert(al_set(s, k, v)[x].0 == s[x].0);
            }
        }
    }
}

/// What lookups see after a store: the stored value under its key, the
/// old values elsewhere.
pub proof fn lemma_al_set_get<K, V>(s: Seq<(K, V)>, k: K, v: V, q: K)
    requires
        al_unique(s),
    ensures
        al_get(al_set(s, k, v), q) == if q == k {
            Some(v)
        } else {
            al_get(s, q)
        },
{
    let s2 = al_set(s, k, v);
    lemma_al_set_unique(s, k, v);
    if al_contains(s, k) {
        let i = al_idx(s, k);
        assert(0 <= i < s.len() && s[i].0 == k);
        if q == k {
            lemma_al_idx_unique(s2, k, i);
        } else {
            if al_contains(s, q) {
                let j = al_idx(s, q);
                assert(0 <= j < s.len() && s[j].0 == q);
                assert(j != i);
                assert(s2[j].0 == q);
                lemma_al_idx_unique(s2, q, j);
            } else {
                assert forall|x: int| 0 <= x < s2.len() implies s2[x].0 != q by {
                    if x != i {
                        assert(s2[x].0 == s[x].0);
                    }
                }
            }
        }
    } else {
        if q == k {
            lemma_al_idx_unique(s2, k, s.len() as int);
        } else {
            if al_contains(s, q) {
                let j = al_idx(s, q);
                lemma_al_idx_unique(s2, q, j);
            } else {
                assert forall|x: int| 0 <= x < s2.len() implies s2[x].0 != q by {
                    if x < s.len() {
                        assert(s2[x].0 == s[x].0);
                    }
                }
            }
        }
    }
}

/// Removing a key keeps the keys unique.
pub proof fn lemma_al_remove_unique<K, V>(s: Seq<(K, V)>, k: K)
    requires
        al_unique(s),
    ensures
        al_unique(al_remove(s, k)),
{
    if al_contains(s, k) {
        let i = al_idx(s, k);
        let s2 = s.remove(i);
        assert forall|x: int, y: int|
            0 <= x < s2.len() && 0 <= y < s2.len() && x != y implies s2[x].0 != s2[y].0 by {
            let x0: int = if x < i {
                x
            } else {
                x + 1
            };
            let y0: int = if y < i {
                y
            } else {
                y + 1
            };
            assert(s2[x] == s[x0] && s2[y] == s[y0]);
        }
    }
}

} // verus!
