//! Association lists read as maps: a sequence of key-value pairs means the
//! map in which each key holds the value of its last pair.

use vstd::prelude::*;

verus! {

/// The map an association list stands for: later pairs override earlier ones.
pub open spec fn assoc_map<A, B>(s: Seq<(A, B)>) -> Map<A, B>
    decreases s.len(),
{
    if s.len() == 0 {
        Map::empty()
    } else {
        assoc_map(s.drop_last()).insert(s.last().0, s.last().1)
    }
}

/// `i` is the last position of `s` holding key `k`.
pub open spec fn is_last_key<A, B>(s: Seq<(A, B)>, k: A, i: int) -> bool {
    &&& 0 <= i < s.len()
    &&& s[i].0 == k
    &&& forall|j: int| i < j < s.len() ==> (#[trigger] s[j]).0 != k
}

/// A key is in the map exactly when some pair holds it.
pub proof fn lemma_assoc_dom<A, B>(s: Seq<(A, B)>, k: A)
    ensures
        assoc_map(s).contains_key(k) <==> exists|i: int| 0 <= i < s.len() && (#[trigger] s[i]).0 == k,
    decreases s.len(),
{
    if s.len() > 0 {
        lemma_assoc_dom(s.drop_last(), k);
        if exists|i: int| 0 <= i < s.len() && (#[trigger] s[i]).0 == k {
            let i = choose|i: int| 0 <= i < s.len() && (#[trigger] s[i]).0 == k;
            if i < s.len() - 1 {
                assert(s.drop_last()[i] == s[i]);
            }
        }
        if exists|i: int| 0 <= i < s.drop_last().len() && (#[trigger] s.drop_last()[i]).0 == k {
            let i = choose|i: int| 0 <= i < s.drop_last().len() && (#[trigger] s.drop_last()[i]).0 == k;
            assert(s[i] == s.drop_last()[i]);
        }
    }
}

/// The value of a key is the value of its last pair.
pub proof fn lemma_assoc_value<A, B>(s: Seq<(A, B)>, k: A, i: int)
    requires
        is_last_key(s, k, i),
    ensures
        assoc_map(s).contains_key(k),
        assoc_map(s)[k] == s[i].1,
    decreases s.len(),
{
    if i < s.len() - 1 {
        assert(s.last().0 != k);
        let p = s.drop_last();
        assert forall|j: int| i < j < p.len() implies (#[trigger] p[j]).0 != k by {
            assert(p[j] == s[j]);
        }
        lemma_assoc_value(p, k, i);
    }
}

/// Rewriting the value of a key's last pair updates the map at that key.
pub proof fn lemma_assoc_update<A, B>(s: Seq<(A, B)>, k: A, i: int, v: B)
    requires
        is_last_key(s, k, i),
    ensures
        assoc_map(s.update(i, (k, v))) == assoc_map(s).insert(k, v),
    decreases s.len(),
{
    let t = s.update(i, (k, v));
    if i == s.len() - 1 {
        assert(t.drop_last() =~= s.drop_last());
        assert(assoc_map(s).insert(k, v) =~= assoc_map(s.drop_last()).insert(k, v));
    } else {
        let p = s.drop_last();
        assert forall|j: int| i < j < p.len() implies (#[trigger] p[j]).0 != k by {
            assert(p[j] == s[j]);
        }
        lemma_assoc_update(p, k, i, v);
        assert(t.drop_last() =~= p.update(i, (k, v)));
        assert(s.last().0 != k);
        assert(assoc_map(t) =~= assoc_map(s).insert(k, v));
    }
}

/// Appending a pair inserts it.
pub proof fn lemma_assoc_push<A, B>(s: Seq<(A, B)>, k: A, v: B)
    ensures
        assoc_map(s.push((k, v))) == assoc_map(s).insert(k, v),
{
    assert(s.push((k, v)).drop_last() =~= s);
}

/// Appending a whole list overrides with its map.
pub proof fn lemma_assoc_append<A, B>(s: Seq<(A, B)>, t: Seq<(A, B)>)
    ensures
        assoc_map(s + t) == assoc_map(s).union_prefer_right(assoc_map(t)),
    decreases t.len(),
{
    if t.len() == 0 {
        assert(s + t =~= s);
        assert(assoc_map(s).union_prefer_right(assoc_map(t)) =~= assoc_map(s));
    } else {
        lemma_assoc_append(s, t.drop_last());
        assert((s + t).drop_last() =~= s + t.drop_last());
        assert(assoc_map(s + t) =~= assoc_map(s).union_prefer_right(assoc_map(t)));
    }
}

} // verus!
