//! Association lists with unique keys, read as maps: the representation both
//! the tracker's counters and the cache's file records use, with the lemmas
//! that connect in-place updates and appends to `Map::insert`.

use vstd::prelude::*;

verus! {

/// The map holding each listed key's last value.
pub open spec fn pairs_map<V>(s: Seq<(Seq<char>, V)>) -> Map<Seq<char>, V>
    decreases s.len(),
{
    if s.len() == 0 {
        Map::empty()
    } else {
        pairs_map(s.drop_last()).insert(s.last().0, s.last().1)
    }
}

/// No two pairs share a key.
pub open spec fn pair_keys_unique<V>(s: Seq<(Seq<char>, V)>) -> bool {
    forall|i: int, j: int| 0 <= i < j < s.len() ==> (#[trigger] s[i]).0 != (#[trigger] s[j]).0
}

/// A key is in the map exactly when some pair lists it.
pub proof fn lemma_pairs_map_dom<V>(s: Seq<(Seq<char>, V)>, k: Seq<char>)
    ensures
        pairs_map(s).dom().contains(k) <==> exists|i: int|
            0 <= i < s.len() && (#[trigger] s[i]).0 == k,
    decreases s.len(),
{
    if s.len() > 0 {
        lemma_pairs_map_dom(s.drop_last(), k);
        if s.last().0 == k {
            assert(s[s.len() - 1].0 == k);
        } else if pairs_map(s).dom().contains(k) {
            let i = choose|i: int| 0 <= i < s.drop_last().len() && (#[trigger] s.drop_last()[i]).0
                == k;
            assert(s[i].0 == k);
        } else {
            if exists|i: int| 0 <= i < s.len() && (#[trigger] s[i]).0 == k {
                let i = choose|i: int| 0 <= i < s.len() && (#[trigger] s[i]).0 == k;
                assert(s.drop_last()[i].0 == k);
            }
        }
    }
}

/// With unique keys, the map holds exactly each pair's value.
pub proof fn lemma_pairs_map_get<V>(s: Seq<(Seq<char>, V)>, i: int)
    requires
        pair_keys_unique(s),
        0 <= i < s.len(),
    ensures
        pairs_map(s).dom().contains(s[i].0),
        pairs_map(s)[s[i].0] == s[i].1,
    decreases s.len(),
{
    if i == s.len() - 1 {
        assert(s[i] == s.last());
    } else {
        assert(pair_keys_unique(s.drop_last())) by {
            assert(forall|a: int, b: int|
                0 <= a < b < s.drop_last().len() ==> (#[trigger] s.drop_last()[a]).0 != (
                #[trigger] s.drop_last()[b]).0);
        }
        lemma_pairs_map_get(s.drop_last(), i);
        assert(s.drop_last()[i] == s[i]);
        assert(s[i].0 != s.last().0);
    }
}

/// Replacing one pair's value in place is `Map::insert` on its key.
pub proof fn lemma_pairs_map_update<V>(s: Seq<(Seq<char>, V)>, i: int, v: V)
    requires
        pair_keys_unique(s),
        0 <= i < s.len(),
    ensures
        pairs_map(s.update(i, (s[i].0, v))) =~= pairs_map(s).insert(s[i].0, v),
        pair_keys_unique(s.update(i, (s[i].0, v))),
    decreases s.len(),
{
    let s2 = s.update(i, (s[i].0, v));
    assert(pair_keys_unique(s2)) by {
        assert(forall|a: int| 0 <= a < s.len() ==> (#[trigger] s2[a]).0 == s[a].0);
    }
    if i == s.len() - 1 {
        assert(s2.drop_last() =~= s.drop_last());
        assert(s2.last() == (s[i].0, v));
    } else {
        assert(pair_keys_unique(s.drop_last())) by {
            assert(forall|a: int, b: int|
                0 <= a < b < s.drop_last().len() ==> (#[trigger] s.drop_last()[a]).0 != (
                #[trigger] s.drop_last()[b]).0);
        }
        lemma_pairs_map_update(s.drop_last(), i, v);
        assert(s2.drop_last() =~= s.drop_last().update(i, (s.drop_last()[i].0, v)));
        assert(s2.last() == s.last());
        assert(s[i].0 != s.last().0);
        assert(pairs_map(s2) =~= pairs_map(s2.drop_last()).insert(s.last().0, s.last().1));
    }
}

} // verus!
