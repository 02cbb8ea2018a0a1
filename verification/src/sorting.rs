//! Stable sorting by an integer-pair key, as a mathematical definition,
//! with its laws: the result is ordered by key and holds the same elements.

use vstd::prelude::*;

verus! {

broadcast use vstd::seq::group_seq_axioms;

/// Lexicographic order on key pairs.
pub open spec fn key_le(a: (int, int), b: (int, int)) -> bool {
    a.0 < b.0 || (a.0 == b.0 && a.1 <= b.1)
}

/// `x` placed after every element whose key is at most its key.
pub open spec fn insert_by<A>(s: Seq<A>, x: A, key: spec_fn(A) -> (int, int)) -> Seq<A>
    decreases s.len(),
{
    if s.len() == 0 {
        seq![x]
    } else if key_le(key(s.last()), key(x)) {
        s.push(x)
    } else {
        insert_by(s.drop_last(), x, key).push(s.last())
    }
}

/// The stable sort of `s` by `key`: elements with equal keys keep their order.
pub open spec fn sort_by_key<A>(s: Seq<A>, key: spec_fn(A) -> (int, int)) -> Seq<A>
    decreases s.len(),
{
    if s.len() == 0 {
        Seq::empty()
    } else {
        insert_by(sort_by_key(s.drop_last(), key), s.last(), key)
    }
}

/// Ordered by key.
pub open spec fn sorted_by<A>(s: Seq<A>, key: spec_fn(A) -> (int, int)) -> bool {
    forall|i: int, j: int| 0 <= i < j < s.len() ==> key_le(key(#[trigger] s[i]), key(#[trigger] s[j]))
}

/// Inserting where a scan from the back stops (at the first element whose key
/// is at most `x`'s) is `insert_by`.
pub proof fn lemma_insert_by_at<A>(s: Seq<A>, x: A, key: spec_fn(A) -> (int, int), j: int)
    requires
        0 <= j <= s.len(),
        forall|m: int| j <= m < s.len() ==> !key_le(key(#[trigger] s[m]), key(x)),
        j > 0 ==> key_le(key(s[j - 1]), key(x)),
    ensures
        insert_by(s, x, key) == s.insert(j, x),
    decreases s.len(),
{
    if s.len() == 0 {
        assert(s.insert(0, x) =~= seq![x]);
    } else if j == s.len() {
        assert(s.insert(j, x) =~= s.push(x));
    } else {
        assert(!key_le(key(s[s.len() - 1]), key(x)));
        lemma_insert_by_at(s.drop_last(), x, key, j);
        assert(s.insert(j, x) =~= s.drop_last().insert(j, x).push(s.last()));
    }
}

/// Inserting into an ordered list keeps it ordered and adds exactly `x`.
pub proof fn lemma_insert_by_sorted<A>(s: Seq<A>, x: A, key: spec_fn(A) -> (int, int))
    requires
        sorted_by(s, key),
    ensures
        sorted_by(insert_by(s, x, key), key),
        insert_by(s, x, key).to_multiset() == s.to_multiset().insert(x),
        insert_by(s, x, key).len() == s.len() + 1,
    decreases s.len(),
{
    broadcast use vstd::seq_lib::group_to_multiset_ensures;
    if s.len() == 0 {
        assert(seq![x] =~= Seq::<A>::empty().push(x));
    } else if key_le(key(s.last()), key(x)) {
        let r = s.push(x);
        assert forall|i: int, j: int| 0 <= i < j < r.len() implies key_le(key(#[trigger] r[i]), key(#[trigger] r[j])) by {
            if j == s.len() && i < s.len() - 1 {
                assert(key_le(key(s[i]), key(s[s.len() - 1])));
            }
        }
    } else {
        let t = s.drop_last();
        assert forall|i: int, j: int| 0 <= i < j < t.len() implies key_le(key(#[trigger] t[i]), key(#[trigger] t[j])) by {
            assert(key_le(key(s[i]), key(s[j])));
        }
        lemma_insert_by_sorted(t, x, key);
        let it = insert_by(t, x, key);
        let r = it.push(s.last());
        assert forall|i: int, j: int| 0 <= i < j < r.len() implies key_le(key(#[trigger] r[i]), key(#[trigger] r[j])) by {
            if j == it.len() {
                assert(it.to_multiset().count(r[i]) > 0);
                assert(t.to_multiset().insert(x).count(r[i]) > 0);
                if r[i] != x {
                    assert(t.to_multiset().count(r[i]) > 0);
                    assert(t.contains(r[i]));
                    let m = choose|m: int| 0 <= m < t.len() && t[m] == r[i];
                    assert(key_le(key(s[m]), key(s[s.len() - 1])));
                }
            }
        }
        assert(s =~= t.push(s.last()));
    }
}

/// The sort is ordered by key and holds the same elements as its input.
pub proof fn lemma_sort_by_key<A>(s: Seq<A>, key: spec_fn(A) -> (int, int))
    ensures
        sorted_by(sort_by_key(s, key), key),
        sort_by_key(s, key).to_multiset() == s.to_multiset(),
        sort_by_key(s, key).len() == s.len(),
    decreases s.len(),
{
    broadcast use vstd::seq_lib::group_to_multiset_ensures;
    if s.len() > 0 {
        lemma_sort_by_key(s.drop_last(), key);
        lemma_insert_by_sorted(sort_by_key(s.drop_last(), key), s.last(), key);
        assert(s =~= s.drop_last().push(s.last()));
    }
}

} // verus!
