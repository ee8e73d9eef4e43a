use vstd::prelude::*;

verus! {

// Association lists keyed by `usize`, sorted by key, standing for maps.

/// Whether the keys of `s` are strictly increasing.
pub open spec fn keys_sorted<V>(s: Seq<(usize, V)>) -> bool {
    forall|i: int, j: int| 0 <= i < j < s.len() ==> s[i].0 < s[j].0
}

/// The map that an association list stands for.
pub open spec fn assoc_map<V>(s: Seq<(usize, V)>) -> Map<usize, V>
    decreases s.len(),
{
    if s.len() == 0 {
        Map::empty()
    } else {
        assoc_map(s.drop_last()).insert(s.last().0, s.last().1)
    }
}

pub proof fn lemma_assoc_map_push<V>(s: Seq<(usize, V)>, e: (usize, V))
    ensures
        assoc_map(s.push(e)) == assoc_map(s).insert(e.0, e.1),
{
    assert(s.push(e).drop_last() == s);
}

pub proof fn lemma_assoc_map_dom<V>(s: Seq<(usize, V)>, k: usize)
    ensures
        assoc_map(s).dom().contains(k) <==> exists|i: int| 0 <= i < s.len() && s[i].0 == k,
    decreases s.len(),
{
    if s.len() > 0 {
        lemma_assoc_map_dom(s.drop_last(), k);
        if exists|i: int| 0 <= i < s.len() && s[i].0 == k {
            let i = choose|i: int| 0 <= i < s.len() && s[i].0 == k;
            if i < s.len() - 1 {
                assert(s.drop_last()[i].0 == k);
            }
        }
        if exists|i: int| 0 <= i < s.len() - 1 && s.drop_last()[i].0 == k {
            let i = choose|i: int| 0 <= i < s.len() - 1 && s.drop_last()[i].0 == k;
            assert(s[i].0 == k);
        }
    }
}

pub proof fn lemma_assoc_map_value<V>(s: Seq<(usize, V)>, i: int)
    requires
        keys_sorted(s),
        0 <= i < s.len(),
    ensures
        assoc_map(s).dom().contains(s[i].0),
        assoc_map(s)[s[i].0] == s[i].1,
    decreases s.len(),
{
    if i < s.len() - 1 {
        lemma_assoc_map_value(s.drop_last(), i);
    }
}

pub proof fn lemma_assoc_map_finite<V>(s: Seq<(usize, V)>)
    ensures
        assoc_map(s).dom().finite(),
    decreases s.len(),
{
    if s.len() > 0 {
        lemma_assoc_map_finite(s.drop_last());
    }
}

/// An empty association list stands for the empty map and only that.
pub proof fn lemma_assoc_map_len<V>(s: Seq<(usize, V)>)
    ensures
        assoc_map(s).dom().len() == 0 <==> s.len() == 0,
    decreases s.len(),
{
    lemma_assoc_map_finite(s);
    if s.len() > 0 {
        assert(assoc_map(s).dom().contains(s.last().0));
    }
}

/// A sorted association list is determined by the map it stands for.
pub proof fn lemma_sorted_assoc_unique<V>(s1: Seq<(usize, V)>, s2: Seq<(usize, V)>)
    requires
        keys_sorted(s1),
        keys_sorted(s2),
        assoc_map(s1) == assoc_map(s2),
    ensures
        s1 == s2,
    decreases s1.len(),
{
    lemma_assoc_map_len(s1);
    lemma_assoc_map_len(s2);
    if s1.len() == 0 {
        assert(s2.len() == 0);
        assert(s1 =~= s2);
    } else {
        let n1 = s1.len() - 1;
        let n2 = s2.len() - 1;
        let k1 = s1[n1].0;
        let k2 = s2[n2].0;
        lemma_assoc_map_value(s1, n1);
        lemma_assoc_map_value(s2, n2);
        lemma_assoc_map_dom(s1, k2);
        lemma_assoc_map_dom(s2, k1);
        let x = choose|x: int| 0 <= x < s2.len() && s2[x].0 == k1;
        let y = choose|y: int| 0 <= y < s1.len() && s1[y].0 == k2;
        if x < n2 {
            assert(s2[x].0 < s2[n2].0);
        }
        if y < n1 {
            assert(s1[y].0 < s1[n1].0);
        }
        assert(k1 == k2);
        assert(s1[n1].1 == s2[n2].1);
        let d1 = s1.drop_last();
        let d2 = s2.drop_last();
        lemma_assoc_map_dom(d1, k1);
        lemma_assoc_map_dom(d2, k1);
        assert forall|i: int| 0 <= i < d1.len() implies d1[i].0 != k1 by {
            assert(s1[i].0 < s1[n1].0);
        }
        assert forall|i: int| 0 <= i < d2.len() implies d2[i].0 != k1 by {
            assert(s2[i].0 < s2[n2].0);
        }
        assert(assoc_map(d1) =~= assoc_map(s1).remove(k1));
        assert(assoc_map(d2) =~= assoc_map(s2).remove(k1));
        lemma_sorted_assoc_unique(d1, d2);
        assert(s1 =~= s2) by {
            assert forall|i: int| 0 <= i < s1.len() implies s1[i] == s2[i] by {
                if i < n1 {
                    assert(s1[i] == d1[i] && s2[i] == d2[i]);
                }
            }
        }
    }
}

} // verus!
