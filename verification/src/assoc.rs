//! Association sequences: the model behind the small keyed tables.
//!
//! A table is a sequence of key-value pairs with pairwise distinct keys;
//! lookup, insert-at-end, in-place update and removal have their meaning
//! stated here once.

use vstd::prelude::*;

verus! {

/// Whether some entry in `s` is keyed by `a`.
pub open spec fn assoc_has<K, V>(s: Seq<(K, V)>, a: K) -> bool {
    exists|i: int| 0 <= i < s.len() && s[i].0 == a
}

/// The index of the entry keyed by `a`.
pub open spec fn assoc_idx<K, V>(s: Seq<(K, V)>, a: K) -> int {
    choose|i: int| 0 <= i < s.len() && s[i].0 == a
}

/// The entry keyed by `a`.
pub open spec fn assoc_get<K, V>(s: Seq<(K, V)>, a: K) -> V {
    s[assoc_idx(s, a)].1
}

/// No key owns two entries.
pub open spec fn assoc_unique<K, V>(s: Seq<(K, V)>) -> bool {
    forall|i: int, j: int| 0 <= i < j < s.len() ==> s[i].0 != s[j].0
}



/// In a unique table, the entry found at `i` is the entry for its key.
pub proof fn lemma_assoc_at<K, V>(s: Seq<(K, V)>, i: int, a: K)
    requires
        0 <= i < s.len(),
        s[i].0 == a,
    ensures
        assoc_has(s, a),
        assoc_unique(s) ==> assoc_get(s, a) == s[i].1,
{
    assert(assoc_has(s, a));
    if assoc_unique(s) {
        let j = assoc_idx(s, a);
        assert(0 <= j < s.len() && s[j].0 == a);
        if i < j {
            assert(s[i].0 != s[j].0);
        } else if j < i {
            assert(s[j].0 != s[i].0);
        }
    }
}

/// Nothing in the table means nothing for any lookup.
pub proof fn lemma_assoc_absent<K, V>(s: Seq<(K, V)>, a: K)
    ensures
        (forall|j: int| 0 <= j < s.len() ==> s[j].0 != a) ==> !assoc_has(s, a),
{
}

/// Removing position `i` removes exactly its key.
pub proof fn lemma_assoc_remove<K, V>(s: Seq<(K, V)>, i: int, a: K)
    requires
        assoc_unique(s),
        0 <= i < s.len(),
        s[i].0 == a,
    ensures
        assoc_unique(s.remove(i)),
        !assoc_has(s.remove(i), a),
        forall|b: K|
            b != a ==> (assoc_has(s.remove(i), b) == assoc_has(s, b) && (assoc_has(s, b)
                ==> assoc_get(s.remove(i), b) == assoc_get(s, b))),
{
    let t = s.remove(i);
    assert forall|b: K| b != a implies (assoc_has(t, b) == assoc_has(s, b) && (assoc_has(s, b)
        ==> assoc_get(t, b) == assoc_get(s, b))) by {
        if assoc_has(s, b) {
            let j = assoc_idx(s, b);
            let j2 = if j < i {
                j
            } else {
                j - 1
            };
            assert(t[j2] == s[j]);
            lemma_assoc_at_v(t, j2, b);
        }
        if assoc_has(t, b) {
            let j = assoc_idx(t, b);
            let j2 = if j < i {
                j
            } else {
                j + 1
            };
            assert(s[j2] == t[j]);
            assert(assoc_has(s, b));
        }
    }
    assert forall|j: int| 0 <= j < t.len() implies t[j].0 != a by {
        if j < i {
            assert(t[j] == s[j]);
        } else {
            assert(t[j] == s[j + 1]);
        }
    }
}

/// Updating position `i` in place changes exactly its key's entry.
pub proof fn lemma_assoc_update<K, V>(s: Seq<(K, V)>, i: int, a: K, v: V)
    requires
        assoc_unique(s),
        0 <= i < s.len(),
        s[i].0 == a,
    ensures
        assoc_unique(s.update(i, (a, v))),
        assoc_has(s.update(i, (a, v)), a),
        assoc_get(s.update(i, (a, v)), a) == v,
        forall|b: K|
            b != a ==> (assoc_has(s.update(i, (a, v)), b) == assoc_has(s, b) && (assoc_has(s, b)
                ==> assoc_get(s.update(i, (a, v)), b) == assoc_get(s, b))),
{
    let t = s.update(i, (a, v));
    lemma_assoc_at_v(t, i, a);
    assert(assoc_get(t, a) == v);
    assert forall|b: K| b != a implies (assoc_has(t, b) == assoc_has(s, b) && (assoc_has(s, b)
        ==> assoc_get(t, b) == assoc_get(s, b))) by {
        if assoc_has(s, b) {
            let j = assoc_idx(s, b);
            assert(j != i);
            assert(t[j] == s[j]);
            lemma_assoc_at_v(t, j, b);
        }
        if assoc_has(t, b) {
            let j = assoc_idx(t, b);
            assert(j != i);
            assert(s[j] == t[j]);
            assert(assoc_has(s, b));
        }
    }
}

/// The value form of `lemma_assoc_at`, usable inside its own proofs.
pub proof fn lemma_assoc_at_v<K, V>(s: Seq<(K, V)>, i: int, a: K)
    requires
        assoc_unique(s),
        0 <= i < s.len(),
        s[i].0 == a,
    ensures
        assoc_has(s, a),
        assoc_get(s, a) == s[i].1,
{
    let j = assoc_idx(s, a);
    assert(0 <= j < s.len() && s[j].0 == a);
    if i < j {
        assert(s[i].0 != s[j].0);
    } else if j < i {
        assert(s[j].0 != s[i].0);
    }
}


/// Appending a fresh key adds exactly its entry.
pub proof fn lemma_assoc_push_fresh<K, V>(s: Seq<(K, V)>, k: K, v: V)
    requires
        assoc_unique(s),
        !assoc_has(s, k),
    ensures
        assoc_unique(s.push((k, v))),
        assoc_has(s.push((k, v)), k),
        assoc_get(s.push((k, v)), k) == v,
        forall|b: K|
            b != k ==> (assoc_has(s.push((k, v)), b) == assoc_has(s, b) && (assoc_has(s, b)
                ==> assoc_get(s.push((k, v)), b) == assoc_get(s, b))),
{
    let t = s.push((k, v));
    assert forall|i: int, j: int| 0 <= i < j < t.len() implies t[i].0 != t[j].0 by {
        if j < s.len() {
        } else {
            assert(t[j] == (k, v));
            assert(t[i] == s[i]);
            if t[i].0 == k {
                assert(assoc_has(s, k));
            }
        }
    }
    assert(t[s.len() as int] == (k, v));
    lemma_assoc_at_v(t, s.len() as int, k);
    assert forall|b: K| b != k implies (assoc_has(t, b) == assoc_has(s, b) && (assoc_has(s, b)
        ==> assoc_get(t, b) == assoc_get(s, b))) by {
        if assoc_has(s, b) {
            let j = assoc_idx(s, b);
            assert(t[j] == s[j]);
            lemma_assoc_at_v(t, j, b);
        }
        if assoc_has(t, b) {
            let j = assoc_idx(t, b);
            assert(0 <= j < t.len() && t[j].0 == b);
            assert(j < s.len());
            assert(s[j] == t[j]);
            assert(assoc_has(s, b));
        }
    }
}

} // verus!
