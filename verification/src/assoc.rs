//! First-match lookup in sequences of keyed records, and the facts the index
//! structures need about it: how a lookup behaves on an unchanged, extended,
//! or pointwise-updated sequence.

use vstd::prelude::*;

verus! {

/// The position of the first record whose key is `t`, or -1 when no record
/// has that key.
pub open spec fn find_key<T, K>(s: Seq<T>, key: spec_fn(T) -> K, t: K) -> int
    decreases s.len(),
{
    if s.len() == 0 {
        -1
    } else if key(s[0]) == t {
        0
    } else {
        let r = find_key(s.drop_first(), key, t);
        if r == -1 {
            -1
        } else {
            r + 1
        }
    }
}

/// A found position is in range and carries the key; a miss means no record
/// carries the key; the found position is the first with the key.
pub proof fn lemma_find_key_props<T, K>(s: Seq<T>, key: spec_fn(T) -> K, t: K)
    ensures
        -1 <= find_key(s, key, t) < s.len(),
        find_key(s, key, t) == -1 ==> (forall|i: int| 0 <= i < s.len() ==> key(s[i]) != t),
        find_key(s, key, t) != -1 ==> 0 <= find_key(s, key, t) < s.len() && key(
            s[find_key(s, key, t)],
        ) == t,
        find_key(s, key, t) != -1 ==> (forall|i: int|
            0 <= i < find_key(s, key, t) ==> key(s[i]) != t),
    decreases s.len(),
{
    if s.len() == 0 {
    } else if key(s[0]) == t {
    } else {
        lemma_find_key_props(s.drop_first(), key, t);
        assert(forall|i: int| 1 <= i < s.len() ==> s[i] == s.drop_first()[i - 1]);
    }
}

/// A record with the key at `i`, below which no record has the key, is the
/// one the lookup finds.
pub proof fn lemma_find_key_at<T, K>(s: Seq<T>, key: spec_fn(T) -> K, t: K, i: int)
    requires
        0 <= i < s.len(),
        key(s[i]) == t,
        forall|j: int| 0 <= j < i ==> key(s[j]) != t,
    ensures
        find_key(s, key, t) == i,
    decreases i,
{
    if i == 0 {
    } else {
        assert(forall|j: int| 0 <= j < s.drop_first().len() ==> s.drop_first()[j] == s[j + 1]);
        lemma_find_key_at(s.drop_first(), key, t, i - 1);
    }
}

/// When no record has the key, the lookup misses.
pub proof fn lemma_find_key_none<T, K>(s: Seq<T>, key: spec_fn(T) -> K, t: K)
    requires
        forall|i: int| 0 <= i < s.len() ==> key(s[i]) != t,
    ensures
        find_key(s, key, t) == -1,
{
    lemma_find_key_props(s, key, t);
    if find_key(s, key, t) != -1 {
        assert(key(s[find_key(s, key, t)]) == t);
    }
}

/// Appending a record changes lookups only for its own key, and only when
/// that key was absent.
pub proof fn lemma_find_key_push<T, K>(s: Seq<T>, key: spec_fn(T) -> K, t: K, e: T)
    ensures
        find_key(s, key, t) != -1 ==> find_key(s.push(e), key, t) == find_key(s, key, t),
        find_key(s, key, t) == -1 && key(e) == t ==> find_key(s.push(e), key, t) == s.len(),
        find_key(s, key, t) == -1 && key(e) != t ==> find_key(s.push(e), key, t) == -1,
    decreases s.len(),
{
    if s.len() == 0 {
        assert(s.push(e)[0] == e);
        assert(s.push(e).drop_first() =~= Seq::<T>::empty());
        assert(find_key(Seq::<T>::empty(), key, t) == -1);
        assert(key(e) == t ==> find_key(s.push(e), key, t) == s.len());
    } else {
        assert(s.push(e)[0] == s[0]);
        assert(s.push(e).drop_first() == s.drop_first().push(e));
        lemma_find_key_push(s.drop_first(), key, t, e);
        lemma_find_key_props(s.drop_first(), key, t);
        lemma_find_key_props(s.drop_first().push(e), key, t);
        if key(s[0]) == t {
            assert(find_key(s, key, t) == 0);
            assert(find_key(s.push(e), key, t) == 0);
            assert(find_key(s, key, t) != -1);
        } else {
            let r = find_key(s.drop_first(), key, t);
            let rp = find_key(s.drop_first().push(e), key, t);
            assert(find_key(s.push(e), key, t) == if rp == -1 { -1 } else { rp + 1 });
            assert(find_key(s, key, t) == if r == -1 { -1 } else { r + 1 });
            assert(s.drop_first().len() + 1 == s.len());
            assert(find_key(s, key, t) == -1 && key(e) == t ==> find_key(s.push(e), key, t)
                == s.len());
        }
    }
}

/// Replacing a record with one of the same key leaves every lookup position
/// unchanged.
pub proof fn lemma_find_key_update<T, K>(s: Seq<T>, key: spec_fn(T) -> K, t: K, j: int, e: T)
    requires
        0 <= j < s.len(),
        key(e) == key(s[j]),
    ensures
        find_key(s.update(j, e), key, t) == find_key(s, key, t),
    decreases s.len(),
{
    if s.len() == 0 {
    } else if j == 0 {
        assert(s.update(j, e)[0] == e);
        assert(s.update(j, e).drop_first() =~= s.drop_first());
    } else {
        assert(s.update(j, e)[0] == s[0]);
        assert(s.update(j, e).drop_first() =~= s.drop_first().update(j - 1, e));
        lemma_find_key_update(s.drop_first(), key, t, j - 1, e);
    }
}

} // verus!
