//! Strictly sorted sequences used as ordered sets of keys (the order `BTreeSet` keeps).

use vstd::prelude::*;

use crate::text::{
    compare_text, lemma_text_less_irreflexive, lemma_text_less_total, lemma_text_less_transitive,
    text_less, TextOrder,
};

verus! {

/// `s` is strictly increasing under `less`.
pub open spec fn sorted_by<A>(s: Seq<A>, less: spec_fn(A, A) -> bool) -> bool {
    forall|i: int, j: int| 0 <= i < j < s.len() ==> #[trigger] less(s[i], s[j])
}

/// `less` is a strict total order.
pub open spec fn strict_total<A>(less: spec_fn(A, A) -> bool) -> bool {
    &&& forall|a: A, b: A, c: A| #[trigger] less(a, b) && #[trigger] less(b, c) ==> less(a, c)
    &&& forall|a: A| !#[trigger] less(a, a)
    &&& forall|a: A, b: A| a != b ==> #[trigger] less(a, b) || #[trigger] less(b, a)
}

/// The character views of a sequence of strings.
pub open spec fn text_views(v: Seq<String>) -> Seq<Seq<char>> {
    v.map_values(|s: String| s@)
}

/// The character views of a sequence of string pairs.
pub open spec fn pair_views(v: Seq<(String, String)>) -> Seq<(Seq<char>, Seq<char>)> {
    v.map_values(|p: (String, String)| (p.0@, p.1@))
}

/// Lexicographic order on key pairs: by the first key, then the second.
pub open spec fn pair_less(a: (Seq<char>, Seq<char>), b: (Seq<char>, Seq<char>)) -> bool {
    text_less(a.0, b.0) || (a.0 == b.0 && text_less(a.1, b.1))
}

pub open spec fn text_order() -> spec_fn(Seq<char>, Seq<char>) -> bool {
    |a: Seq<char>, b: Seq<char>| text_less(a, b)
}

pub open spec fn pair_order() -> spec_fn((Seq<char>, Seq<char>), (Seq<char>, Seq<char>)) -> bool {
    |a: (Seq<char>, Seq<char>), b: (Seq<char>, Seq<char>)| pair_less(a, b)
}

pub proof fn lemma_text_order_strict()
    ensures
        strict_total(text_order()),
{
    assert forall|a: Seq<char>, b: Seq<char>, c: Seq<char>|
        #[trigger] text_order()(a, b) && #[trigger] text_order()(b, c) implies text_order()(a, c) by {
        lemma_text_less_transitive(a, b, c);
    }
    assert forall|a: Seq<char>| !#[trigger] text_order()(a, a) by {
        lemma_text_less_irreflexive(a);
    }
    assert forall|a: Seq<char>, b: Seq<char>| a != b implies #[trigger] text_order()(a, b)
        || #[trigger] text_order()(b, a) by {
        lemma_text_less_total(a, b);
    }
}

pub proof fn lemma_pair_order_strict()
    ensures
        strict_total(pair_order()),
{
    assert forall|a: (Seq<char>, Seq<char>), b: (Seq<char>, Seq<char>), c: (Seq<char>, Seq<char>)|
        #[trigger] pair_order()(a, b) && #[trigger] pair_order()(b, c) implies pair_order()(a, c) by {
        if text_less(a.0, b.0) && text_less(b.0, c.0) {
            lemma_text_less_transitive(a.0, b.0, c.0);
        }
        if a.0 == b.0 && b.0 == c.0 && text_less(a.1, b.1) && text_less(b.1, c.1) {
            lemma_text_less_transitive(a.1, b.1, c.1);
        }
    }
    assert forall|a: (Seq<char>, Seq<char>)| !#[trigger] pair_order()(a, a) by {
        lemma_text_less_irreflexive(a.0);
        lemma_text_less_irreflexive(a.1);
    }
    assert forall|a: (Seq<char>, Seq<char>), b: (Seq<char>, Seq<char>)| a != b implies #[trigger] pair_order()(a, b)
        || #[trigger] pair_order()(b, a) by {
        if a.0 != b.0 {
            lemma_text_less_total(a.0, b.0);
        } else {
            assert(a.1 != b.1);
            lemma_text_less_total(a.1, b.1);
        }
    }
}

/// Inserting `k` at the first position whose element is not below `k` keeps a strictly
/// sorted sequence strictly sorted, and adds exactly `k` to its contents.
pub proof fn lemma_sorted_insert<A>(s: Seq<A>, p: int, k: A, less: spec_fn(A, A) -> bool)
    requires
        strict_total(less),
        sorted_by(s, less),
        0 <= p <= s.len(),
        forall|i: int| 0 <= i < p ==> #[trigger] less(s[i], k),
        p < s.len() ==> less(k, s[p]),
    ensures
        sorted_by(s.insert(p, k), less),
        forall|x: A| #[trigger] s.insert(p, k).contains(x) <==> (s.contains(x) || x == k),
{
    let n = s.insert(p, k);
    assert forall|i: int, j: int| 0 <= i < j < n.len() implies #[trigger] less(n[i], n[j]) by {
        if j < p {
        } else if j == p {
        } else if i < p {
            assert(less(s[i], s[j - 1]));
        } else if i == p {
            if j - 1 > p {
                assert(less(s[p], s[j - 1]));
            }
        } else {
            assert(less(s[i - 1], s[j - 1]));
        }
    }
    assert forall|x: A| #[trigger] n.contains(x) <==> (s.contains(x) || x == k) by {
        if n.contains(x) {
            let i = choose|i: int| 0 <= i < n.len() && n[i] == x;
            if i < p {
                assert(s[i] == x);
            } else if i > p {
                assert(s[i - 1] == x);
            }
        }
        if s.contains(x) {
            let i = choose|i: int| 0 <= i < s.len() && s[i] == x;
            if i < p {
                assert(n[i] == x);
            } else {
                assert(n[i + 1] == x);
            }
        }
        if x == k {
            assert(n[p] == x);
        }
    }
}

/// Adds `k` to a strictly sorted vector of keys (no change when `k` is already there).
pub fn insert_text(v: &mut Vec<String>, k: String)
    requires
        sorted_by(text_views(old(v)@), text_order()),
    ensures
        sorted_by(text_views(final(v)@), text_order()),
        forall|x: Seq<char>| #[trigger] text_views(final(v)@).contains(x)
            <==> (text_views(old(v)@).contains(x) || x == k@),
{
    proof {
        lemma_text_order_strict();
    }
    let ghost s = text_views(v@);
    let mut i: usize = 0;
    while i < v.len()
        invariant
            s == text_views(v@),
            v@ == old(v)@,
            sorted_by(s, text_order()),
            i <= v.len(),
            forall|j: int| 0 <= j < i ==> text_less(#[trigger] s[j], k@),
        ensures
            s == text_views(v@),
            v@ == old(v)@,
            i <= v.len(),
            forall|j: int| 0 <= j < i ==> text_less(#[trigger] s[j], k@),
            i < v.len() ==> text_less(k@, s[i as int]),
        decreases v.len() - i,
    {
        match compare_text(v[i].as_str(), k.as_str()) {
            TextOrder::Before => {
                i = i + 1;
            },
            TextOrder::Same => {
                proof {
                    assert(s[i as int] == k@);
                    assert(s.contains(k@));
                }
                return;
            },
            TextOrder::After => {
                break;
            },
        }
    }
    proof {
        lemma_sorted_insert(s, i as int, k@, text_order());
        assert(text_views(v@.insert(i as int, k)) =~= s.insert(i as int, k@));
    }
    v.insert(i, k);
}

/// Adds the pair `k` to a strictly sorted vector of key pairs (no change when present).
pub fn insert_pair(v: &mut Vec<(String, String)>, k: (String, String))
    requires
        sorted_by(pair_views(old(v)@), pair_order()),
    ensures
        sorted_by(pair_views(final(v)@), pair_order()),
        forall|x: (Seq<char>, Seq<char>)| #[trigger] pair_views(final(v)@).contains(x)
            <==> (pair_views(old(v)@).contains(x) || x == (k.0@, k.1@)),
{
    proof {
        lemma_pair_order_strict();
    }
    let ghost s = pair_views(v@);
    let ghost kv = (k.0@, k.1@);
    let mut i: usize = 0;
    while i < v.len()
        invariant
            s == pair_views(v@),
            v@ == old(v)@,
            sorted_by(s, pair_order()),
            kv == (k.0@, k.1@),
            i <= v.len(),
            forall|j: int| 0 <= j < i ==> pair_less(#[trigger] s[j], kv),
        ensures
            s == pair_views(v@),
            v@ == old(v)@,
            i <= v.len(),
            forall|j: int| 0 <= j < i ==> pair_less(#[trigger] s[j], kv),
            i < v.len() ==> pair_less(kv, s[i as int]),
        decreases v.len() - i,
    {
        let first = compare_text(v[i].0.as_str(), k.0.as_str());
        let order = match first {
            TextOrder::Same => compare_text(v[i].1.as_str(), k.1.as_str()),
            other => other,
        };
        match order {
            TextOrder::Before => {
                i = i + 1;
            },
            TextOrder::Same => {
                proof {
                    assert(s[i as int] == kv);
                    assert(s.contains(kv));
                }
                return;
            },
            TextOrder::After => {
                break;
            },
        }
    }
    proof {
        lemma_sorted_insert(s, i as int, kv, pair_order());
        assert(pair_views(v@.insert(i as int, k)) =~= s.insert(i as int, kv));
    }
    v.insert(i, k);
}


/// The strictly sorted sequence whose members are exactly those satisfying `members`
/// (the iteration order of an ordered set holding them).
pub open spec fn ordered_set<A>(members: spec_fn(A) -> bool, less: spec_fn(A, A) -> bool) -> Seq<A> {
    choose|s: Seq<A>| sorted_by(s, less) && forall|x: A| #[trigger] s.contains(x) <==> members(x)
}

/// Two strictly sorted sequences with the same members are equal.
pub proof fn lemma_sorted_same_members<A>(s1: Seq<A>, s2: Seq<A>, less: spec_fn(A, A) -> bool)
    requires
        strict_total(less),
        sorted_by(s1, less),
        sorted_by(s2, less),
        forall|x: A| #[trigger] s1.contains(x) <==> s2.contains(x),
    ensures
        s1 == s2,
    decreases s1.len(),
{
    if s1.len() == 0 {
        if s2.len() > 0 {
            assert(s2.contains(s2[0]));
            assert(s1.contains(s2[0]));
        }
        assert(s1 =~= s2);
    } else {
        assert(s1.contains(s1[0]));
        assert(s2.len() > 0);
        assert(s2.contains(s2[0]));
        assert(s1.contains(s2[0]));
        assert(s2.contains(s1[0]));
        let j = choose|j: int| 0 <= j < s2.len() && s2[j] == s1[0];
        let i = choose|i: int| 0 <= i < s1.len() && s1[i] == s2[0];
        if j > 0 {
            assert(less(s2[0], s2[j]));
            if i > 0 {
                assert(less(s1[0], s1[i]));
                assert(less(s1[0], s1[0]));
            } else {
                assert(less(s1[0], s1[0]));
            }
        }
        assert(j == 0);
        assert(s2[0] == s1[0]);
        let t1 = s1.drop_first();
        let t2 = s2.drop_first();
        assert forall|x: A| #[trigger] t1.contains(x) <==> t2.contains(x) by {
            if t1.contains(x) {
                let a = choose|a: int| 0 <= a < t1.len() && t1[a] == x;
                assert(less(s1[0], s1[a + 1]));
                assert(s1.contains(x));
                let b = choose|b: int| 0 <= b < s2.len() && s2[b] == x;
                if b == 0 {
                    assert(less(s1[0], s1[0]));
                }
                assert(t2[b - 1] == x);
            }
            if t2.contains(x) {
                let a = choose|a: int| 0 <= a < t2.len() && t2[a] == x;
                assert(less(s2[0], s2[a + 1]));
                assert(s2.contains(x));
                assert(s1.contains(x));
                let b = choose|b: int| 0 <= b < s1.len() && s1[b] == x;
                if b == 0 {
                    assert(s2[a + 1] == s2[0]);
                    assert(less(s2[0], s2[0]));
                }
                assert(t1[b - 1] == x);
            }
        }
        assert(sorted_by(t1, less)) by {
            assert forall|a: int, b: int| 0 <= a < b < t1.len() implies #[trigger] less(t1[a], t1[b]) by {
                assert(less(s1[a + 1], s1[b + 1]));
            }
        }
        assert(sorted_by(t2, less)) by {
            assert forall|a: int, b: int| 0 <= a < b < t2.len() implies #[trigger] less(t2[a], t2[b]) by {
                assert(less(s2[a + 1], s2[b + 1]));
            }
        }
        lemma_sorted_same_members(t1, t2, less);
        assert(s1 =~= seq![s1[0]] + t1);
        assert(s2 =~= seq![s2[0]] + t2);
    }
}

/// A strictly sorted sequence with exactly the given members is the ordered set of them.
pub proof fn lemma_ordered_set<A>(s: Seq<A>, members: spec_fn(A) -> bool, less: spec_fn(A, A) -> bool)
    requires
        strict_total(less),
        sorted_by(s, less),
        forall|x: A| #[trigger] s.contains(x) <==> members(x),
    ensures
        ordered_set(members, less) == s,
{
    let o = ordered_set(members, less);
    assert(sorted_by(o, less) && forall|x: A| #[trigger] o.contains(x) <==> members(x));
    lemma_sorted_same_members(o, s, less);
}

/// Ascending order on channel indices.
pub open spec fn index_order() -> spec_fn(usize, usize) -> bool {
    |a: usize, b: usize| a < b
}

pub proof fn lemma_index_order_strict()
    ensures
        strict_total(index_order()),
{
}

/// Adds `c` to a strictly ascending vector of channel indices (no change when present).
pub fn insert_index(v: &mut Vec<usize>, c: usize)
    requires
        sorted_by(old(v)@, index_order()),
    ensures
        sorted_by(final(v)@, index_order()),
        forall|x: usize| #[trigger] final(v)@.contains(x) <==> (old(v)@.contains(x) || x == c),
{
    proof {
        lemma_index_order_strict();
    }
    let ghost s = v@;
    let mut i: usize = 0;
    while i < v.len()
        invariant
            s == v@,
            v@ == old(v)@,
            sorted_by(s, index_order()),
            i <= v.len(),
            forall|j: int| 0 <= j < i ==> #[trigger] s[j] < c,
        ensures
            s == v@,
            v@ == old(v)@,
            i <= v.len(),
            forall|j: int| 0 <= j < i ==> #[trigger] s[j] < c,
            i < v.len() ==> c < s[i as int],
        decreases v.len() - i,
    {
        if v[i] < c {
            i = i + 1;
        } else if v[i] == c {
            proof {
                assert(s.contains(c));
            }
            return;
        } else {
            break;
        }
    }
    proof {
        lemma_sorted_insert(s, i as int, c, index_order());
    }
    v.insert(i, c);
}

} // verus!
