//! Association lists with distinct keys, viewed as finite maps.
//!
//! The stores of this crate (chunks keyed by digest, version records keyed
//! by id, path nodes keyed by normalized key) keep their entries in a
//! vector of key/value pairs; their contracts speak of the map that this
//! module derives from that vector.

use vstd::prelude::*;

verus! {

/// The map an association list denotes.  Later entries win, so under
/// `distinct_keys` every entry is visible.
pub open spec fn assoc_map<K: View, V: View>(s: Seq<(K, V)>) -> Map<K::V, V::V>
    decreases s.len(),
{
    if s.len() == 0 {
        Map::empty()
    } else {
        assoc_map(s.drop_last()).insert(s.last().0@, s.last().1@)
    }
}

/// No two entries of the list share a key.
pub open spec fn distinct_keys<K: View, V: View>(s: Seq<(K, V)>) -> bool {
    forall|i: int, j: int| 0 <= i < j < s.len() ==> s[i].0@ != s[j].0@
}

/// A key is in the derived map exactly when some entry holds it.
pub proof fn lemma_assoc_map_contains<K: View, V: View>(s: Seq<(K, V)>, k: K::V)
    ensures
        assoc_map(s).contains_key(k) <==> exists|i: int| 0 <= i < s.len() && #[trigger] s[i].0@ == k,
    decreases s.len(),
{
    if s.len() > 0 {
        let dl = s.drop_last();
        lemma_assoc_map_contains(dl, k);
        if s.last().0@ == k {
            assert(s[s.len() - 1].0@ == k);
        }
        if exists|i: int| 0 <= i < dl.len() && #[trigger] dl[i].0@ == k {
            let i = choose|i: int| 0 <= i < dl.len() && #[trigger] dl[i].0@ == k;
            assert(s[i].0@ == k);
        }
        if exists|i: int| 0 <= i < s.len() && #[trigger] s[i].0@ == k {
            let i = choose|i: int| 0 <= i < s.len() && #[trigger] s[i].0@ == k;
            if i < s.len() - 1 {
                assert(dl[i].0@ == k);
            }
        }
    }
}

/// Dropping the last entry keeps the keys distinct.
pub proof fn lemma_distinct_drop_last<K: View, V: View>(s: Seq<(K, V)>)
    requires
        distinct_keys(s),
        s.len() > 0,
    ensures
        distinct_keys(s.drop_last()),
{
    let dl = s.drop_last();
    assert forall|i: int, j: int| 0 <= i < j < dl.len() implies dl[i].0@ != dl[j].0@ by {
        assert(s[i].0@ != s[j].0@);
    }
}

/// Under distinct keys, each entry is mapped to its own value.
pub proof fn lemma_assoc_map_index<K: View, V: View>(s: Seq<(K, V)>, i: int)
    requires
        distinct_keys(s),
        0 <= i < s.len(),
    ensures
        assoc_map(s).contains_key(s[i].0@),
        assoc_map(s)[s[i].0@] == s[i].1@,
    decreases s.len(),
{
    let dl = s.drop_last();
    if i == s.len() - 1 {
        assert(s.last() == s[i]);
    } else {
        lemma_distinct_drop_last(s);
        lemma_assoc_map_index(dl, i);
        assert(dl[i] == s[i]);
        assert(s[i].0@ != s[s.len() - 1].0@);
    }
}

/// Appending an entry inserts its pair into the derived map.
pub proof fn lemma_assoc_map_push<K: View, V: View>(s: Seq<(K, V)>, p: (K, V))
    ensures
        assoc_map(s.push(p)) == assoc_map(s).insert(p.0@, p.1@),
{
    assert(s.push(p).drop_last() =~= s);
    assert(s.push(p).last() == p);
}

/// Replacing the entry at `i` by one with the same key updates the map
/// at that key.
pub proof fn lemma_assoc_map_update<K: View, V: View>(s: Seq<(K, V)>, i: int, p: (K, V))
    requires
        distinct_keys(s),
        0 <= i < s.len(),
        p.0@ == s[i].0@,
    ensures
        assoc_map(s.update(i, p)) == assoc_map(s).insert(p.0@, p.1@),
        distinct_keys(s.update(i, p)),
    decreases s.len(),
{
    let dl = s.drop_last();
    let u = s.update(i, p);
    assert forall|a: int, b: int| 0 <= a < b < u.len() implies u[a].0@ != u[b].0@ by {
        assert(s[a].0@ != s[b].0@);
    }
    if i == s.len() - 1 {
        assert(u.drop_last() =~= dl);
        assert(u.last() == p);
        assert(assoc_map(dl).insert(s.last().0@, s.last().1@).insert(p.0@, p.1@) =~= assoc_map(
            dl,
        ).insert(p.0@, p.1@));
    } else {
        lemma_distinct_drop_last(s);
        assert(u.drop_last() =~= dl.update(i, p));
        assert(u.last() == s.last());
        assert(dl[i] == s[i]);
        lemma_assoc_map_update(dl, i, p);
        assert(s[i].0@ != s[s.len() - 1].0@);
        assert(assoc_map(dl).insert(p.0@, p.1@).insert(s.last().0@, s.last().1@) =~= assoc_map(
            dl,
        ).insert(s.last().0@, s.last().1@).insert(p.0@, p.1@));
    }
}

/// Removing the entry at `i` removes its key from the derived map.
pub proof fn lemma_assoc_map_remove<K: View, V: View>(s: Seq<(K, V)>, i: int)
    requires
        distinct_keys(s),
        0 <= i < s.len(),
    ensures
        assoc_map(s.remove(i)) == assoc_map(s).remove(s[i].0@),
        distinct_keys(s.remove(i)),
    decreases s.len(),
{
    let dl = s.drop_last();
    let r = s.remove(i);
    assert forall|a: int, b: int| 0 <= a < b < r.len() implies r[a].0@ != r[b].0@ by {
        let sa: int = if a < i {
            a
        } else {
            a + 1
        };
        let sb: int = if b < i {
            b
        } else {
            b + 1
        };
        assert(r[a] == s[sa]);
        assert(r[b] == s[sb]);
        assert(s[sa].0@ != s[sb].0@);
    }
    lemma_distinct_drop_last(s);
    if i == s.len() - 1 {
        assert(r =~= dl);
        lemma_assoc_map_contains(dl, s[i].0@);
        assert(forall|j: int| 0 <= j < dl.len() ==> #[trigger] dl[j].0@ != s[i].0@) by {
            assert forall|j: int| 0 <= j < dl.len() implies #[trigger] dl[j].0@ != s[i].0@ by {
                assert(s[j].0@ != s[i].0@);
            }
        }
        assert(!assoc_map(dl).contains_key(s[i].0@));
        assert(assoc_map(dl).insert(s.last().0@, s.last().1@).remove(s[i].0@) =~= assoc_map(dl));
    } else {
        assert(r.drop_last() =~= dl.remove(i));
        assert(r.last() == s.last());
        assert(dl[i] == s[i]);
        lemma_assoc_map_remove(dl, i);
        assert(s[i].0@ != s[s.len() - 1].0@);
        assert(assoc_map(dl).remove(s[i].0@).insert(s.last().0@, s.last().1@) =~= assoc_map(
            dl,
        ).insert(s.last().0@, s.last().1@).remove(s[i].0@));
    }
}

/// Under distinct keys the derived map has exactly one entry per pair.
pub proof fn lemma_assoc_map_dom_len<K: View, V: View>(s: Seq<(K, V)>)
    requires
        distinct_keys(s),
    ensures
        assoc_map(s).dom().finite(),
        assoc_map(s).dom().len() == s.len(),
    decreases s.len(),
{
    if s.len() > 0 {
        let dl = s.drop_last();
        lemma_distinct_drop_last(s);
        lemma_assoc_map_dom_len(dl);
        lemma_assoc_map_contains(dl, s.last().0@);
        assert(forall|j: int| 0 <= j < dl.len() ==> #[trigger] dl[j].0@ != s.last().0@) by {
            assert forall|j: int| 0 <= j < dl.len() implies #[trigger] dl[j].0@ != s.last().0@ by {
                assert(s[j].0@ != s[s.len() - 1].0@);
            }
        }
        assert(!assoc_map(dl).contains_key(s.last().0@));
        assert(assoc_map(s).dom() =~= assoc_map(dl).dom().insert(s.last().0@));
    } else {
        assert(assoc_map(s).dom() =~= Set::<K::V>::empty());
    }
}

} // verus!
