//! Association lists: a sequence of key/value pairs with distinct keys read as a
//! map, and lists of node ids read as sets.
use vstd::prelude::*;

use crate::Id;

verus! {

/// No key occurs twice.
pub open spec fn keys_unique<K, V>(s: Seq<(K, V)>) -> bool {
    forall|i: int, j: int| 0 <= i < j < s.len() ==> (#[trigger] s[i]).0 != (#[trigger] s[j]).0
}

/// Index of an entry with key `k`, where there is one.
pub open spec fn index_of<K, V>(s: Seq<(K, V)>, k: K) -> int {
    choose|i: int| 0 <= i < s.len() && (#[trigger] s[i]).0 == k
}

pub open spec fn has_key<K, V>(s: Seq<(K, V)>, k: K) -> bool {
    exists|i: int| 0 <= i < s.len() && (#[trigger] s[i]).0 == k
}

/// The map that an association list stands for.
pub open spec fn map_of<K, V>(s: Seq<(K, V)>) -> Map<K, V> {
    Map::new(|k: K| has_key(s, k), |k: K| s[index_of(s, k)].1)
}

pub proof fn lemma_map_of_index<K, V>(s: Seq<(K, V)>, i: int)
    requires
        keys_unique(s),
        0 <= i < s.len(),
    ensures
        map_of(s).contains_key(s[i].0),
        map_of(s)[s[i].0] == s[i].1,
{
    assert(has_key(s, s[i].0));
    let j = index_of(s, s[i].0);
    assert(s[j].0 == s[i].0);
    if j < i {
        assert(s[j].0 != s[i].0);
    } else if i < j {
        assert(s[i].0 != s[j].0);
    }
}

pub proof fn lemma_map_of_all<K, V>(s: Seq<(K, V)>)
    requires
        keys_unique(s),
    ensures
        forall|i: int|
            0 <= i < s.len() ==> map_of(s).contains_key(#[trigger] s[i].0) && map_of(s)[s[i].0]
                == s[i].1,
        forall|k: K| #[trigger]
            map_of(s).contains_key(k) ==> exists|i: int| 0 <= i < s.len() && (#[trigger] s[i]).0 == k,
{
    assert forall|i: int| 0 <= i < s.len() implies map_of(s).contains_key(#[trigger] s[i].0)
        && map_of(s)[s[i].0] == s[i].1 by {
        lemma_map_of_index(s, i);
    }
}

pub proof fn lemma_map_of_push<K, V>(s: Seq<(K, V)>, k: K, v: V)
    requires
        keys_unique(s),
        !map_of(s).contains_key(k),
    ensures
        keys_unique(s.push((k, v))),
        map_of(s.push((k, v))) == map_of(s).insert(k, v),
{
    let t = s.push((k, v));
    assert forall|i: int, j: int| 0 <= i < j < t.len() implies (#[trigger] t[i]).0 != (
    #[trigger] t[j]).0 by {
        if j == s.len() {
            if t[i].0 == k {
                assert(has_key(s, k));
            }
        } else {
            assert(t[i] == s[i] && t[j] == s[j]);
        }
    }
    lemma_map_of_all(s);
    lemma_map_of_all(t);
    assert forall|x: K| #[trigger] map_of(t).contains_key(x) == map_of(s).insert(k, v).contains_key(
        x,
    ) by {
        if has_key(s, x) {
            let i = index_of(s, x);
            assert(t[i] == s[i]);
        }
        if has_key(t, x) && x != k {
            let i = index_of(t, x);
            assert(t[i] == s[i]);
        }
        if x == k {
            assert(t[s.len() as int].0 == k);
        }
    }
    assert forall|x: K| #[trigger] map_of(t).contains_key(x) implies map_of(t)[x] == map_of(
        s,
    ).insert(k, v)[x] by {
        if x == k {
            lemma_map_of_index(t, s.len() as int);
        } else {
            let i = index_of(t, x);
            assert(t[i] == s[i]);
            lemma_map_of_index(t, i);
            lemma_map_of_index(s, i);
        }
    }
    assert(map_of(t) =~= map_of(s).insert(k, v));
}

pub proof fn lemma_map_of_update<K, V>(s: Seq<(K, V)>, i: int, v: V)
    requires
        keys_unique(s),
        0 <= i < s.len(),
    ensures
        keys_unique(s.update(i, (s[i].0, v))),
        map_of(s.update(i, (s[i].0, v))) == map_of(s).insert(s[i].0, v),
{
    let t = s.update(i, (s[i].0, v));
    assert forall|a: int, b: int| 0 <= a < b < t.len() implies (#[trigger] t[a]).0 != (
    #[trigger] t[b]).0 by {
        assert(s[a].0 != s[b].0);
    }
    lemma_map_of_all(s);
    lemma_map_of_all(t);
    assert forall|x: K| #[trigger] map_of(t).contains_key(x) == map_of(s).insert(
        s[i].0,
        v,
    ).contains_key(x) by {
        if has_key(s, x) {
            let j = index_of(s, x);
            assert(t[j].0 == s[j].0);
        }
        if has_key(t, x) {
            let j = index_of(t, x);
            assert(t[j].0 == s[j].0);
        }
    }
    assert forall|x: K| #[trigger] map_of(t).contains_key(x) implies map_of(t)[x] == map_of(
        s,
    ).insert(s[i].0, v)[x] by {
        let j = index_of(t, x);
        lemma_map_of_index(t, j);
        if j != i {
            lemma_map_of_index(s, j);
        }
    }
    assert(map_of(t) =~= map_of(s).insert(s[i].0, v));
}

pub proof fn lemma_map_of_remove<K, V>(s: Seq<(K, V)>, i: int)
    requires
        keys_unique(s),
        0 <= i < s.len(),
    ensures
        keys_unique(s.remove(i)),
        map_of(s.remove(i)) == map_of(s).remove(s[i].0),
{
    let t = s.remove(i);
    assert forall|a: int| 0 <= a < t.len() implies #[trigger] t[a] == if a < i {
        s[a]
    } else {
        s[a + 1]
    } by {}
    assert forall|a: int, b: int| 0 <= a < b < t.len() implies (#[trigger] t[a]).0 != (
    #[trigger] t[b]).0 by {
        let a1 = if a < i { a } else { a + 1 };
        let b1 = if b < i { b } else { b + 1 };
        assert(s[a1].0 != s[b1].0);
    }
    lemma_map_of_all(s);
    lemma_map_of_all(t);
    assert forall|x: K| #[trigger] map_of(t).contains_key(x) == map_of(s).remove(
        s[i].0,
    ).contains_key(x) by {
        if has_key(s, x) && x != s[i].0 {
            let j = index_of(s, x);
            if j < i {
                assert(t[j] == s[j]);
            } else {
                assert(t[j - 1] == s[j]);
            }
        }
        if has_key(t, x) {
            let j = index_of(t, x);
            let j_next = if j < i { j } else { j + 1 };
            assert(t[j] == s[j_next]);
            assert(s[j_next].0 != s[i].0);
        }
    }
    assert forall|x: K| #[trigger] map_of(t).contains_key(x) implies map_of(t)[x] == map_of(
        s,
    ).remove(s[i].0)[x] by {
        let j = index_of(t, x);
        let j_next = if j < i { j } else { j + 1 };
        lemma_map_of_index(t, j);
        lemma_map_of_index(s, j_next);
    }
    assert(map_of(t) =~= map_of(s).remove(s[i].0));
}

/// Whether `x` is in the list.
pub fn contains_id(v: &Vec<Id>, x: Id) -> (r: bool)
    ensures
        r == v@.contains(x),
{
    let mut i: usize = 0;
    while i < v.len()
        invariant
            i <= v.len(),
            forall|j: int| 0 <= j < i ==> v@[j] != x,
        decreases v.len() - i,
    {
        if v[i] == x {
            return true;
        }
        i = i + 1;
    }
    false
}

/// Adds `x` to a list read as a set; true when it was not there yet.
pub fn insert_id(v: &mut Vec<Id>, x: Id) -> (r: bool)
    ensures
        r == !old(v)@.contains(x),
        final(v)@.to_set() == old(v)@.to_set().insert(x),
        old(v)@.no_duplicates() ==> final(v)@.no_duplicates(),
{
    if contains_id(v, x) {
        proof {
            assert(v@.to_set() =~= v@.to_set().insert(x));
        }
        false
    } else {
        v.push(x);
        proof {
            assert(final(v)@.to_set() =~= old(v)@.to_set().insert(x)) by {
                assert forall|y: Id| #[trigger] final(v)@.contains(y) == (old(v)@.contains(y) || y == x) by {
                    if old(v)@.contains(y) {
                        let j = choose|j: int| 0 <= j < old(v)@.len() && old(v)@[j] == y;
                        assert(final(v)@[j] == y);
                    }
                    if y == x {
                        assert(final(v)@[old(v)@.len() as int] == x);
                    }
                }
            }
        }
        true
    }
}

/// How many of the listed elders are in `witnesses`.
pub open spec fn count_witnessed(elders: Seq<Id>, witnesses: Set<Id>) -> nat
    decreases elders.len(),
{
    if elders.len() == 0 {
        0
    } else {
        count_witnessed(elders.drop_last(), witnesses) + if witnesses.contains(elders.last()) {
            1nat
        } else {
            0nat
        }
    }
}

/// A strict majority of the elders is among the witnesses.
pub open spec fn has_quorum(witnesses: Set<Id>, elders: Seq<Id>) -> bool {
    crate::fake_crypto::is_majority(count_witnessed(elders, witnesses) as int, elders.len() as int)
}

pub proof fn lemma_count_bound(elders: Seq<Id>, witnesses: Set<Id>)
    ensures
        count_witnessed(elders, witnesses) <= elders.len(),
    decreases elders.len(),
{
    if elders.len() > 0 {
        lemma_count_bound(elders.drop_last(), witnesses);
    }
}

/// Whether a strict majority of `elders` is in `witnesses`.
pub fn quorum(witnesses: &Vec<Id>, elders: &Vec<Id>) -> (r: bool)
    ensures
        r == has_quorum(witnesses@.to_set(), elders@),
{
    let mut count: usize = 0;
    let mut i: usize = 0;
    while i < elders.len()
        invariant
            i <= elders.len(),
            count == count_witnessed(elders@.subrange(0, i as int), witnesses@.to_set()),
        decreases elders.len() - i,
    {
        proof {
            assert(elders@.subrange(0, i + 1).drop_last() =~= elders@.subrange(0, i as int));
            lemma_count_bound(elders@.subrange(0, i as int), witnesses@.to_set());
        }
        if contains_id(witnesses, elders[i]) {
            count = count + 1;
        }
        i = i + 1;
    }
    proof {
        assert(elders@.subrange(0, elders.len() as int) =~= elders@);
    }
    crate::fake_crypto::majority(count, elders.len())
}

} // verus!
