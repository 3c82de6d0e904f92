//! Keyed lookup in sequences: the specification vocabulary for the
//! association vectors that hold per-layer and per-timestamp state.

use vstd::prelude::*;

verus! {

/// Index of the first element of `s` whose key is `k`, or `-1` when absent.
pub open spec fn key_index<T, K>(s: Seq<T>, key: spec_fn(T) -> K, k: K) -> int
    decreases s.len(),
{
    if s.len() == 0 {
        -1
    } else if key(s[0]) == k {
        0
    } else {
        let r = key_index(s.drop_first(), key, k);
        if r < 0 {
            -1
        } else {
            r + 1
        }
    }
}

/// The first element of `s` whose key is `k`, if any.
pub open spec fn find_by<T, K>(s: Seq<T>, key: spec_fn(T) -> K, k: K) -> Option<T> {
    let i = key_index(s, key, k);
    if i >= 0 {
        Some(s[i])
    } else {
        None
    }
}

/// No two elements of `s` share a key.
pub open spec fn unique_keys<T, K>(s: Seq<T>, key: spec_fn(T) -> K) -> bool {
    forall|i: int, j: int| 0 <= i < j < s.len() ==> key(s[i]) != key(s[j])
}

/// A non-negative `key_index` lands on the first element bearing the key.
pub proof fn lemma_key_index_props<T, K>(s: Seq<T>, key: spec_fn(T) -> K, k: K)
    ensures
        -1 <= key_index(s, key, k) < s.len(),
        key_index(s, key, k) >= 0 ==> key(s[key_index(s, key, k)]) == k,
        key_index(s, key, k) >= 0 ==> forall|j: int|
            0 <= j < key_index(s, key, k) ==> key(#[trigger] s[j]) != k,
    decreases s.len(),
{
    if s.len() == 0 {
    } else if key(s[0]) == k {
    } else {
        lemma_key_index_props(s.drop_first(), key, k);
        assert forall|j: int| 0 <= j < key_index(s, key, k) implies key(#[trigger] s[j]) != k by {
            if j > 0 {
                assert(key(s.drop_first()[j - 1]) != k);
                assert(s.drop_first()[j - 1] == s[j]);
            }
        }
    }
}

/// A negative `key_index` means no element bears the key.
pub proof fn lemma_key_index_complete<T, K>(s: Seq<T>, key: spec_fn(T) -> K, k: K)
    requires
        key_index(s, key, k) == -1,
    ensures
        forall|j: int| 0 <= j < s.len() ==> key(#[trigger] s[j]) != k,
    decreases s.len(),
{
    if s.len() == 0 {
    } else {
        assert(key(s[0]) != k);
        lemma_key_index_complete(s.drop_first(), key, k);
        assert forall|j: int| 0 <= j < s.len() implies key(#[trigger] s[j]) != k by {
            if j > 0 {
                assert(key(s.drop_first()[j - 1]) != k);
                assert(s.drop_first()[j - 1] == s[j]);
            }
        }
    }
}

/// Sequences whose elements bear the same keys position any key alike.
pub proof fn lemma_key_index_congruence<T, K>(s1: Seq<T>, s2: Seq<T>, key: spec_fn(T) -> K, k: K)
    requires
        s1.len() == s2.len(),
        forall|j: int| 0 <= j < s1.len() ==> key(#[trigger] s1[j]) == key(#[trigger] s2[j]),
    ensures
        key_index(s1, key, k) == key_index(s2, key, k),
{
    let r1 = key_index(s1, key, k);
    lemma_key_index_props(s1, key, k);
    if r1 >= 0 {
        assert forall|j: int| 0 <= j < r1 implies key(#[trigger] s2[j]) != k by {
            assert(key(s1[j]) != k);
            assert(key(s1[j]) == key(s2[j]));
        }
        assert(key(s2[r1]) == key(s1[r1]));
        lemma_key_index_first(s2, key, k, r1);
    } else {
        lemma_key_index_complete(s1, key, k);
        assert forall|j: int| 0 <= j < s2.len() implies key(#[trigger] s2[j]) != k by {
            assert(key(s1[j]) != k);
            assert(key(s1[j]) == key(s2[j]));
        }
        lemma_key_index_absent(s2, key, k);
    }
}

/// How appending an element changes lookup: an existing key is found as
/// before; the new element answers only for its own, previously absent, key.
pub proof fn lemma_find_push<T, K>(s: Seq<T>, key: spec_fn(T) -> K, x: T, k: K)
    ensures
        find_by(s.push(x), key, k) == (if key_index(s, key, k) >= 0 {
            find_by(s, key, k)
        } else if key(x) == k {
            Some(x)
        } else {
            None
        }),
{
    let r = key_index(s, key, k);
    lemma_key_index_props(s, key, k);
    if r >= 0 {
        lemma_key_index_first(s.push(x), key, k, r);
    } else {
        lemma_key_index_complete(s, key, k);
        if key(x) == k {
            lemma_key_index_first(s.push(x), key, k, s.len() as int);
        } else {
            lemma_key_index_absent(s.push(x), key, k);
        }
    }
}

/// How deleting position `i` changes lookup: the deleted element's key
/// becomes absent; every other key is found as before.
pub proof fn lemma_find_remove<T, K>(s: Seq<T>, key: spec_fn(T) -> K, i: int, k: K)
    requires
        unique_keys(s, key),
        0 <= i < s.len(),
    ensures
        find_by(s.remove(i), key, k) == (if key(s[i]) == k {
            None::<T>
        } else {
            find_by(s, key, k)
        }),
        unique_keys(s.remove(i), key),
{
    let t = s.remove(i);
    assert(forall|j: int| 0 <= j < i ==> #[trigger] t[j] == s[j]);
    assert(forall|j: int| i <= j < t.len() ==> #[trigger] t[j] == s[j + 1]);
    assert forall|a: int, b: int| 0 <= a < b < t.len() implies key(t[a]) != key(t[b]) by {
        let a2 = if a < i { a } else { a + 1 };
        let b2 = if b < i { b } else { b + 1 };
        assert(t[a] == s[a2] && t[b] == s[b2]);
    }
    let r = key_index(s, key, k);
    lemma_key_index_props(s, key, k);
    if key(s[i]) == k {
        assert forall|j: int| 0 <= j < t.len() implies key(#[trigger] t[j]) != k by {
            let j2 = if j < i { j } else { j + 1 };
            assert(t[j] == s[j2]);
            if j2 != i {
                assert(key(s[j2]) != key(s[i]));
            }
        }
        lemma_key_index_absent(t, key, k);
    } else if r >= 0 {
        if r < i {
            lemma_key_index_first(t, key, k, r);
        } else {
            assert(r != i);
            assert forall|j: int| 0 <= j < r - 1 implies key(#[trigger] t[j]) != k by {
                let j2 = if j < i { j } else { j + 1 };
                assert(t[j] == s[j2] && j2 < r);
            }
            assert(t[r - 1] == s[r]);
            lemma_key_index_first(t, key, k, r - 1);
        }
    } else {
        lemma_key_index_complete(s, key, k);
        assert forall|j: int| 0 <= j < t.len() implies key(#[trigger] t[j]) != k by {
            let j2 = if j < i { j } else { j + 1 };
            assert(t[j] == s[j2]);
        }
        lemma_key_index_absent(t, key, k);
    }
}

/// Appending an element with a fresh key keeps keys unique.
pub proof fn lemma_unique_push<T, K>(s: Seq<T>, key: spec_fn(T) -> K, x: T)
    requires
        unique_keys(s, key),
        key_index(s, key, key(x)) == -1,
    ensures
        unique_keys(s.push(x), key),
{
    lemma_key_index_complete(s, key, key(x));
    assert forall|a: int, b: int| 0 <= a < b < s.push(x).len() implies key(s.push(x)[a]) != key(
        s.push(x)[b],
    ) by {
        if b < s.len() {
            assert(s.push(x)[a] == s[a] && s.push(x)[b] == s[b]);
        } else {
            assert(s.push(x)[a] == s[a] && s.push(x)[b] == x);
        }
    }
}

/// Any first position bearing the key is where `key_index` lands.
pub proof fn lemma_key_index_first<T, K>(s: Seq<T>, key: spec_fn(T) -> K, k: K, i: int)
    requires
        0 <= i < s.len(),
        key(s[i]) == k,
        forall|j: int| 0 <= j < i ==> key(#[trigger] s[j]) != k,
    ensures
        key_index(s, key, k) == i,
    decreases s.len(),
{
    if i == 0 {
    } else {
        assert(key(s[0]) != k);
        assert(forall|j: int| 0 <= j < s.drop_first().len() ==> #[trigger] s.drop_first()[j] == s[j + 1]);
        lemma_key_index_first(s.drop_first(), key, k, i - 1);
    }
}

/// When no element bears the key, `key_index` reports absence.
pub proof fn lemma_key_index_absent<T, K>(s: Seq<T>, key: spec_fn(T) -> K, k: K)
    requires
        forall|j: int| 0 <= j < s.len() ==> key(#[trigger] s[j]) != k,
    ensures
        key_index(s, key, k) == -1,
    decreases s.len(),
{
    if s.len() == 0 {
    } else {
        assert(forall|j: int| 0 <= j < s.drop_first().len() ==> #[trigger] s.drop_first()[j] == s[j + 1]);
        lemma_key_index_absent(s.drop_first(), key, k);
    }
}

} // verus!
