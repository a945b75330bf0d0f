use vstd::prelude::*;

verus! {

/// The map that a list of `(key, value)` entries denotes, later entries
/// overriding earlier ones with the same key.
pub open spec fn keyed<V>(s: Seq<(Seq<char>, V)>) -> Map<Seq<char>, V>
    decreases s.len(),
{
    if s.len() == 0 {
        Map::empty()
    } else {
        keyed(s.drop_last()).insert(s.last().0, s.last().1)
    }
}

pub open spec fn distinct_keys<V>(s: Seq<(Seq<char>, V)>) -> bool {
    forall|i: int, j: int| 0 <= i < j < s.len() ==> s[i].0 != s[j].0
}

pub proof fn lemma_keyed_at<V>(s: Seq<(Seq<char>, V)>, i: int)
    requires
        distinct_keys(s),
        0 <= i < s.len(),
    ensures
        keyed(s).contains_key(s[i].0),
        keyed(s)[s[i].0] == s[i].1,
    decreases s.len(),
{
    if i < s.len() - 1 {
        let d = s.drop_last();
        assert(d[i] == s[i]);
        lemma_keyed_at(d, i);
        assert(s[i].0 != s[s.len() - 1].0);
    }
}

pub proof fn lemma_keyed_finite<V>(s: Seq<(Seq<char>, V)>)
    ensures
        keyed(s).dom().finite(),
    decreases s.len(),
{
    if s.len() > 0 {
        lemma_keyed_finite(s.drop_last());
    }
}

pub proof fn lemma_keyed_absent<V>(s: Seq<(Seq<char>, V)>, k: Seq<char>)
    requires
        forall|i: int| 0 <= i < s.len() ==> s[i].0 != k,
    ensures
        !keyed(s).contains_key(k),
    decreases s.len(),
{
    if s.len() > 0 {
        let d = s.drop_last();
        assert forall|i: int| 0 <= i < d.len() implies d[i].0 != k by {
            assert(d[i] == s[i]);
        }
        lemma_keyed_absent(d, k);
        assert(s.last().0 != k);
    }
}

pub proof fn lemma_keyed_push<V>(s: Seq<(Seq<char>, V)>, e: (Seq<char>, V))
    ensures
        keyed(s.push(e)) == keyed(s).insert(e.0, e.1),
{
    assert(s.push(e).drop_last() =~= s);
}

pub proof fn lemma_keyed_update<V>(s: Seq<(Seq<char>, V)>, i: int, v: V)
    requires
        distinct_keys(s),
        0 <= i < s.len(),
    ensures
        keyed(s.update(i, (s[i].0, v))) == keyed(s).insert(s[i].0, v),
    decreases s.len(),
{
    let k = s[i].0;
    let u = s.update(i, (k, v));
    let d = s.drop_last();
    if i == s.len() - 1 {
        assert(u.drop_last() =~= d);
        assert(keyed(u) =~= keyed(s).insert(k, v));
    } else {
        assert(u.drop_last() =~= d.update(i, (k, v)));
        assert(d[i] == s[i]);
        lemma_keyed_update(d, i, v);
        assert(s.last().0 != k);
        assert(keyed(u) =~= keyed(s).insert(k, v));
    }
}

} // verus!
