//! Association lists keyed by account identifiers, and the map each one
//! denotes. The executable code keeps small keyed tables as vectors of
//! pairs with pairwise-distinct keys; contracts speak of the denoted map.

use vstd::prelude::*;

verus! {

/// The map denoted by an association list; a later entry overrides an
/// earlier one with the same key.
pub open spec fn assoc_map<V>(s: Seq<(u64, V)>) -> Map<u64, V>
    decreases s.len(),
{
    if s.len() == 0 {
        Map::empty()
    } else {
        assoc_map(s.drop_last()).insert(s.last().0, s.last().1)
    }
}

/// Pairwise-distinct keys.
pub open spec fn unique_keys<V>(s: Seq<(u64, V)>) -> bool {
    forall|i: int, j: int| 0 <= i < j < s.len() ==> (#[trigger] s[i]).0 != (#[trigger] s[j]).0
}

/// With distinct keys, the denoted map holds exactly the listed entries.
pub proof fn lemma_assoc_map<V>(s: Seq<(u64, V)>)
    requires
        unique_keys(s),
    ensures
        forall|k: u64|
            #[trigger] assoc_map(s).dom().contains(k) <==> exists|i: int|
                0 <= i < s.len() && (#[trigger] s[i]).0 == k,
        forall|i: int|
            0 <= i < s.len() ==> assoc_map(s).dom().contains((#[trigger] s[i]).0)
                && assoc_map(s)[s[i].0] == s[i].1,
    decreases s.len(),
{
    if s.len() > 0 {
        lemma_assoc_map(s.drop_last());
        assert forall|i: int| 0 <= i < s.len() implies assoc_map(s).dom().contains(
            (#[trigger] s[i]).0,
        ) && assoc_map(s)[s[i].0] == s[i].1 by {
            if i < s.len() - 1 {
                assert(s.drop_last()[i] == s[i]);
                assert(s[i].0 != s.last().0);
            }
        }
        assert forall|k: u64| #[trigger] assoc_map(s).dom().contains(k) implies exists|i: int|
            0 <= i < s.len() && (#[trigger] s[i]).0 == k by {
            if k == s.last().0 {
                assert(s[s.len() - 1].0 == k);
            } else {
                assert(assoc_map(s.drop_last()).dom().contains(k));
                let i = choose|i: int|
                    0 <= i < s.drop_last().len() && (#[trigger] s.drop_last()[i]).0 == k;
                assert(s.drop_last()[i] == s[i]);
                assert(s[i].0 == k);
            }
        }
    }
}

/// Overwriting the value at one entry inserts its key into the denoted map.
pub proof fn lemma_assoc_update<V>(s: Seq<(u64, V)>, i: int, x: V)
    requires
        unique_keys(s),
        0 <= i < s.len(),
    ensures
        assoc_map(s.update(i, (s[i].0, x))) == assoc_map(s).insert(s[i].0, x),
        unique_keys(s.update(i, (s[i].0, x))),
    decreases s.len(),
{
    let t = s.update(i, (s[i].0, x));
    assert forall|p: int, q: int| 0 <= p < q < t.len() implies (#[trigger] t[p]).0 != (
    #[trigger] t[q]).0 by {
        assert(t[p].0 == s[p].0 && t[q].0 == s[q].0);
    }
    if i == s.len() - 1 {
        assert(t.drop_last() =~= s.drop_last());
        assert(assoc_map(t) =~= assoc_map(s).insert(s[i].0, x));
    } else {
        assert(t.drop_last() =~= s.drop_last().update(i, (s[i].0, x)));
        assert(s.drop_last()[i] == s[i]);
        lemma_assoc_update(s.drop_last(), i, x);
        assert(s[i].0 != s.last().0);
        assert(assoc_map(t) =~= assoc_map(s).insert(s[i].0, x));
    }
}

/// Appending an entry with a fresh key inserts it into the denoted map.
pub proof fn lemma_assoc_push<V>(s: Seq<(u64, V)>, k: u64, x: V)
    requires
        unique_keys(s),
        forall|i: int| 0 <= i < s.len() ==> (#[trigger] s[i]).0 != k,
    ensures
        assoc_map(s.push((k, x))) == assoc_map(s).insert(k, x),
        unique_keys(s.push((k, x))),
{
    assert(s.push((k, x)).drop_last() =~= s);
    let t = s.push((k, x));
    assert forall|p: int, q: int| 0 <= p < q < t.len() implies (#[trigger] t[p]).0 != (
    #[trigger] t[q]).0 by {
        if q < t.len() - 1 {
            assert(t[p] == s[p] && t[q] == s[q]);
        } else {
            assert(t[p] == s[p]);
        }
    }
}

/// The position of a key in an association list, if it is listed.
pub fn assoc_find<V>(v: &Vec<(u64, V)>, k: u64) -> (r: Option<usize>)
    ensures
        match r {
            Some(p) => 0 <= p < v@.len() && v@[p as int].0 == k,
            None => forall|i: int| 0 <= i < v@.len() ==> (#[trigger] v@[i]).0 != k,
        },
{
    let mut p: usize = 0;
    while p < v.len()
        invariant
            p <= v@.len(),
            forall|i: int| 0 <= i < p ==> (#[trigger] v@[i]).0 != k,
        decreases v@.len() - p,
    {
        if v[p].0 == k {
            return Some(p);
        }
        p = p + 1;
    }
    None
}

} // verus!
