//! Lists of key-value entries with unique keys, read as maps.

use vstd::prelude::*;

verus! {

/// Some entry of `s` has key `k`.
pub open spec fn has_key<K, V>(s: Seq<(K, V)>, k: K) -> bool {
    exists|i: int| 0 <= i < s.len() && s[i].0 == k
}

/// No two entries of `s` share a key.
pub open spec fn keys_unique<K, V>(s: Seq<(K, V)>) -> bool {
    forall|i: int, j: int| 0 <= i < s.len() && 0 <= j < s.len() && s[i].0 == s[j].0 ==> i == j
}

/// The position of the entry with key `k`.
pub open spec fn index_of<K, V>(s: Seq<(K, V)>, k: K) -> int {
    choose|i: int| 0 <= i < s.len() && s[i].0 == k
}

/// The map that a list of entries with unique keys stands for.
pub open spec fn assoc_view<K, V: View>(s: Seq<(K, V)>) -> Map<K, V::V> {
    Map::new(|k: K| has_key(s, k), |k: K| s[index_of(s, k)].1@)
}

pub proof fn lemma_index_of<K, V>(s: Seq<(K, V)>, i: int)
    requires
        keys_unique(s),
        0 <= i < s.len(),
    ensures
        has_key(s, s[i].0),
        index_of(s, s[i].0) == i,
{
    assert(has_key(s, s[i].0));
}

pub proof fn lemma_update<K, V: View>(s: Seq<(K, V)>, i: int, v: V)
    requires
        keys_unique(s),
        0 <= i < s.len(),
    ensures
        keys_unique(s.update(i, (s[i].0, v))),
        assoc_view(s.update(i, (s[i].0, v))) == assoc_view(s).insert(s[i].0, v@),
{
    let t = s.update(i, (s[i].0, v));
    assert(keys_unique(t)) by {
        assert forall|a: int, b: int| 0 <= a < t.len() && 0 <= b < t.len() && t[a].0 == t[b].0 implies a == b by {
            assert(t[a].0 == s[a].0 && t[b].0 == s[b].0);
        }
    }
    assert forall|k: K| has_key(t, k) == has_key(s, k) by {
        if has_key(s, k) {
            let j = choose|j: int| 0 <= j < s.len() && s[j].0 == k;
            assert(t[j].0 == k);
        }
        if has_key(t, k) {
            let j = choose|j: int| 0 <= j < t.len() && t[j].0 == k;
            assert(s[j].0 == k);
        }
    }
    assert forall|k: K| #[trigger] has_key(t, k) implies t[index_of(t, k)].1@ == (if k == s[i].0 {
        v@
    } else {
        s[index_of(s, k)].1@
    }) by {
        let j = choose|j: int| 0 <= j < t.len() && t[j].0 == k;
        lemma_index_of(t, j);
        assert(s[j].0 == k);
        lemma_index_of(s, j);
    }
    assert(assoc_view(t) =~= assoc_view(s).insert(s[i].0, v@));
}

pub proof fn lemma_push<K, V: View>(s: Seq<(K, V)>, k: K, v: V)
    requires
        keys_unique(s),
        !has_key(s, k),
    ensures
        keys_unique(s.push((k, v))),
        assoc_view(s.push((k, v))) == assoc_view(s).insert(k, v@),
{
    let t = s.push((k, v));
    assert(keys_unique(t)) by {
        assert forall|a: int, b: int| 0 <= a < t.len() && 0 <= b < t.len() && t[a].0 == t[b].0 implies a == b by {
            if a < s.len() && b < s.len() {
                assert(t[a] == s[a] && t[b] == s[b]);
            } else if a < s.len() {
                assert(t[a] == s[a]);
            } else if b < s.len() {
                assert(t[b] == s[b]);
            }
        }
    }
    assert forall|k2: K| has_key(t, k2) == (has_key(s, k2) || k2 == k) by {
        if has_key(s, k2) {
            let j = choose|j: int| 0 <= j < s.len() && s[j].0 == k2;
            assert(t[j] == s[j]);
        }
        if has_key(t, k2) && k2 != k {
            let j = choose|j: int| 0 <= j < t.len() && t[j].0 == k2;
            assert(j < s.len());
            assert(t[j] == s[j]);
        }
        if k2 == k {
            assert(t[s.len() as int].0 == k);
        }
    }
    assert forall|k2: K| #[trigger] has_key(t, k2) implies t[index_of(t, k2)].1@ == (if k2 == k {
        v@
    } else {
        s[index_of(s, k2)].1@
    }) by {
        let j = choose|j: int| 0 <= j < t.len() && t[j].0 == k2;
        lemma_index_of(t, j);
        if j < s.len() {
            assert(t[j] == s[j]);
            lemma_index_of(s, j);
        }
    }
    assert(assoc_view(t) =~= assoc_view(s).insert(k, v@));
}

pub proof fn lemma_remove<K, V: View>(s: Seq<(K, V)>, i: int)
    requires
        keys_unique(s),
        0 <= i < s.len(),
    ensures
        keys_unique(s.remove(i)),
        assoc_view(s.remove(i)) == assoc_view(s).remove(s[i].0),
{
    let t = s.remove(i);
    let f = |a: int| if a < i { a } else { a + 1 };
    assert forall|a: int| 0 <= a < t.len() implies t[a] == s[f(a)] by {}
    assert(keys_unique(t)) by {
        assert forall|a: int, b: int| 0 <= a < t.len() && 0 <= b < t.len() && t[a].0 == t[b].0 implies a == b by {
            assert(t[a] == s[f(a)] && t[b] == s[f(b)]);
        }
    }
    assert forall|k: K| has_key(t, k) == (has_key(s, k) && k != s[i].0) by {
        if has_key(t, k) {
            let j = choose|j: int| 0 <= j < t.len() && t[j].0 == k;
            assert(t[j] == s[f(j)]);
        }
        if has_key(s, k) && k != s[i].0 {
            let j = choose|j: int| 0 <= j < s.len() && s[j].0 == k;
            if j < i {
                assert(t[j] == s[j]);
            } else {
                assert(j != i);
                assert(t[j - 1] == s[j]);
            }
        }
    }
    assert forall|k: K| #[trigger] has_key(t, k) implies t[index_of(t, k)].1@ == s[index_of(
        s,
        k,
    )].1@ by {
        let j = choose|j: int| 0 <= j < t.len() && t[j].0 == k;
        lemma_index_of(t, j);
        assert(t[j] == s[f(j)]);
        lemma_index_of(s, f(j));
    }
    assert(assoc_view(t) =~= assoc_view(s).remove(s[i].0));
}

} // verus!
