//! Tables keyed by a numeric object id: a vector of `(id, record)` entries in which
//! no id occurs twice. Putting an id replaces its record in place or appends a new
//! entry; taking an id removes its entry and keeps the others in order.

use vstd::prelude::*;

use crate::search::{first_match, is_first_match, lemma_first_match_exists, lemma_first_match_found};

verus! {

/// An entry has the given id.
pub open spec fn has_id<V>(k: u32) -> spec_fn((u32, V)) -> bool {
    |e: (u32, V)| e.0 == k
}

/// The position of the entry with id `k`, if any.
pub open spec fn id_index<V>(s: Seq<(u32, V)>, k: u32) -> Option<int> {
    first_match(s, has_id(k))
}

/// No id occurs twice.
pub open spec fn unique_ids<V>(s: Seq<(u32, V)>) -> bool {
    forall|i: int, j: int| 0 <= i < s.len() && 0 <= j < s.len() && i != j ==> s[i].0 != s[j].0
}

/// The record stored under id `k`, if any.
pub open spec fn lookup<V>(s: Seq<(u32, V)>, k: u32) -> Option<V> {
    match id_index(s, k) {
        Some(i) => Some(s[i].1),
        None => None,
    }
}

/// `s` with the record under `k` replaced by `v`, or `(k, v)` appended.
pub open spec fn upsert<V>(s: Seq<(u32, V)>, k: u32, v: V) -> Seq<(u32, V)> {
    match id_index(s, k) {
        Some(i) => s.update(i, (k, v)),
        None => s.push((k, v)),
    }
}

/// `s` without the entry for `k`.
pub open spec fn without_id<V>(s: Seq<(u32, V)>, k: u32) -> Seq<(u32, V)> {
    match id_index(s, k) {
        Some(i) => s.remove(i),
        None => s,
    }
}

/// In a table with unique ids, the entry at `i` is the one for its id.
pub proof fn lemma_id_index_at<V>(s: Seq<(u32, V)>, i: int)
    requires
        unique_ids(s),
        0 <= i < s.len(),
    ensures
        id_index(s, s[i].0) == Some(i),
{
    assert(is_first_match(s, has_id(s[i].0), i));
    lemma_first_match_found(s, has_id(s[i].0), i);
}

/// What `id_index` says in words.
pub proof fn lemma_id_index<V>(s: Seq<(u32, V)>, k: u32)
    ensures
        match id_index(s, k) {
            Some(i) => 0 <= i < s.len() && s[i].0 == k,
            None => forall|j: int| 0 <= j < s.len() ==> s[j].0 != k,
        },
{
    if exists|j: int| 0 <= j < s.len() && s[j].0 == k {
        let j = choose|j: int| 0 <= j < s.len() && s[j].0 == k;
        lemma_first_match_exists(s, has_id(k), j);
    }
}

/// Putting keeps ids unique, stores `v` under `k` and leaves every other id alone.
pub proof fn lemma_upsert<V>(s: Seq<(u32, V)>, k: u32, v: V)
    requires
        unique_ids(s),
    ensures
        unique_ids(upsert(s, k, v)),
        lookup(upsert(s, k, v), k) == Some(v),
        forall|j: u32| j != k ==> #[trigger] lookup(upsert(s, k, v), j) == lookup(s, j),
{
    lemma_id_index(s, k);
    let t = upsert(s, k, v);
    assert(unique_ids(t));
    match id_index(s, k) {
        Some(i) => lemma_id_index_at(t, i),
        None => lemma_id_index_at(t, s.len() as int),
    }
    assert forall|j: u32| j != k implies #[trigger] lookup(t, j) == lookup(s, j) by {
        lemma_id_index(s, j);
        match id_index(s, j) {
            Some(i) => {
                assert(t[i] == s[i]);
                lemma_id_index_at(t, i);
            },
            None => {
                lemma_id_index(t, j);
                if let Some(i) = id_index(t, j) {
                    assert(t[i] == s[i]);
                }
            },
        }
    }
}

/// Taking keeps ids unique, drops `k` and leaves every other id alone.
pub proof fn lemma_without<V>(s: Seq<(u32, V)>, k: u32)
    requires
        unique_ids(s),
    ensures
        unique_ids(without_id(s, k)),
        lookup(without_id(s, k), k) is None,
        forall|j: u32| j != k ==> #[trigger] lookup(without_id(s, k), j) == lookup(s, j),
{
    lemma_id_index(s, k);
    let t = without_id(s, k);
    match id_index(s, k) {
        Some(p) => {
            assert forall|a: int, b: int| 0 <= a < t.len() && 0 <= b < t.len() && a != b implies t[a].0
                != t[b].0 by {
                let a2 = if a < p { a } else { a + 1 };
                let b2 = if b < p { b } else { b + 1 };
                assert(t[a] == s[a2]);
                assert(t[b] == s[b2]);
            }
            assert forall|j: int| 0 <= j < t.len() implies t[j].0 != k by {
                let j2 = if j < p { j } else { j + 1 };
                assert(t[j] == s[j2]);
            }
        },
        None => {},
    }
    lemma_id_index(t, k);
    assert forall|j: u32| j != k implies #[trigger] lookup(t, j) == lookup(s, j) by {
        lemma_id_index(s, j);
        lemma_id_index(t, j);
        match id_index(s, k) {
            Some(p) => {
                match id_index(s, j) {
                    Some(i) => {
                        let i2 = if i < p { i } else { i - 1 };
                        assert(t[i2] == s[i]);
                        lemma_id_index_at(t, i2);
                    },
                    None => {
                        if let Some(i) = id_index(t, j) {
                            let i3 = if i < p { i } else { i + 1 };
                            assert(t[i] == s[i3]);
                        }
                    },
                }
            },
            None => {},
        }
    }
}

/// The position of the entry with id `k`.
pub fn find_id<V>(t: &Vec<(u32, V)>, k: u32) -> (r: Option<usize>)
    ensures
        match r {
            Some(i) => id_index(t@, k) == Some(i as int),
            None => id_index(t@, k) is None,
        },
{
    let mut i: usize = 0;
    while i < t.len()
        invariant
            i <= t@.len(),
            forall|j: int| 0 <= j < i ==> t@[j].0 != k,
        decreases t.len() - i,
    {
        if t[i].0 == k {
            proof {
                assert(is_first_match(t@, has_id(k), i as int));
                lemma_first_match_found(t@, has_id(k), i as int);
            }
            return Some(i);
        }
        i = i + 1;
    }
    proof {
        lemma_id_index(t@, k);
    }
    None
}

/// Stores `v` under `k`, replacing the record already there.
pub fn put<V>(t: &mut Vec<(u32, V)>, k: u32, v: V)
    ensures
        final(t)@ == upsert(old(t)@, k, v),
{
    match find_id(t, k) {
        Some(i) => {
            t.set(i, (k, v));
        },
        None => {
            t.push((k, v));
        },
    }
}

/// Removes the entry for `k`; says whether there was one.
pub fn take<V>(t: &mut Vec<(u32, V)>, k: u32) -> (r: bool)
    ensures
        final(t)@ == without_id(old(t)@, k),
        r == id_index(old(t)@, k) is Some,
{
    match find_id(t, k) {
        Some(i) => {
            proof {
                lemma_id_index(t@, k);
            }
            t.remove(i);
            true
        },
        None => false,
    }
}

} // verus!
