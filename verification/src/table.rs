use vstd::prelude::*;

use crate::key::obeys_key_eq;

verus! {

/// An association sequence has distinct keys when no two positions hold
/// keys with the same deep view.
pub(crate) open spec fn distinct_keys<K: DeepView, E>(s: Seq<(K, E)>) -> bool {
    forall|i: int, j: int|
        0 <= i < j < s.len() ==> s[i].0.deep_view() != s[j].0.deep_view()
}

/// The finite map an association sequence denotes, keyed by the deep views
/// of its keys. On duplicate keys the later position wins; the stores keep
/// their sequences duplicate-free, so the case never arises there.
pub(crate) open spec fn assoc_map<K: DeepView, E>(s: Seq<(K, E)>) -> Map<<K as DeepView>::V, E>
    decreases s.len(),
{
    if s.len() == 0 {
        Map::empty()
    } else {
        assoc_map(s.drop_last()).insert(s.last().0.deep_view(), s.last().1)
    }
}

/// The domain of the denoted map is finite and holds exactly the deep
/// views of the keys in the sequence.
pub(crate) proof fn lemma_assoc_map_dom<K: DeepView, E>(s: Seq<(K, E)>)
    ensures
        assoc_map(s).dom().finite(),
        forall|kv: <K as DeepView>::V| #[trigger]
            assoc_map(s).contains_key(kv) <==> exists|i: int|
                0 <= i < s.len() && #[trigger] s[i].0.deep_view() == kv,
    decreases s.len(),
{
    if s.len() == 0 {
    } else {
        lemma_assoc_map_dom(s.drop_last());
        assert forall|kv: <K as DeepView>::V| #[trigger]
            assoc_map(s).contains_key(kv) implies exists|i: int|
            0 <= i < s.len() && #[trigger] s[i].0.deep_view() == kv by {
            if kv == s.last().0.deep_view() {
                assert(s[s.len() - 1].0.deep_view() == kv);
            } else {
                let i = choose|i: int|
                    0 <= i < s.drop_last().len() && #[trigger] s.drop_last()[i].0.deep_view()
                        == kv;
                assert(s[i].0.deep_view() == kv);
            }
        }
        assert forall|kv: <K as DeepView>::V|
            exists|i: int|
                0 <= i < s.len() && #[trigger] s[i].0.deep_view()
                    == kv implies #[trigger] assoc_map(s).contains_key(kv) by {
            let i = choose|i: int| 0 <= i < s.len() && #[trigger] s[i].0.deep_view() == kv;
            if i < s.len() - 1 {
                assert(s.drop_last()[i].0.deep_view() == kv);
            }
        }
    }
}

/// With distinct keys, the denoted map sends each key's deep view to the
/// entry stored beside it.
pub(crate) proof fn lemma_assoc_map_index<K: DeepView, E>(s: Seq<(K, E)>, i: int)
    requires
        distinct_keys(s),
        0 <= i < s.len(),
    ensures
        assoc_map(s).contains_key(s[i].0.deep_view()),
        assoc_map(s)[s[i].0.deep_view()] == s[i].1,
    decreases s.len(),
{
    if i < s.len() - 1 {
        assert(distinct_keys(s.drop_last())) by {
            assert(forall|m: int, j: int|
                0 <= m < j < s.drop_last().len() ==> s.drop_last()[m] == s[m]
                    && s.drop_last()[j] == s[j]);
        }
        lemma_assoc_map_index(s.drop_last(), i);
        assert(s.drop_last()[i] == s[i]);
        assert(s[i].0.deep_view() != s.last().0.deep_view());
    }
}

/// With distinct keys, the denoted map has exactly one key per position.
pub(crate) proof fn lemma_assoc_map_len<K: DeepView, E>(s: Seq<(K, E)>)
    requires
        distinct_keys(s),
    ensures
        assoc_map(s).dom().len() == s.len(),
    decreases s.len(),
{
    broadcast use vstd::set::group_set_axioms;

    if s.len() == 0 {
        assert(assoc_map(s).dom() =~= Set::<<K as DeepView>::V>::empty());
    } else {
        assert(distinct_keys(s.drop_last())) by {
            assert(forall|m: int, j: int|
                0 <= m < j < s.drop_last().len() ==> s.drop_last()[m] == s[m]
                    && s.drop_last()[j] == s[j]);
        }
        lemma_assoc_map_len(s.drop_last());
        lemma_assoc_map_dom(s.drop_last());
        assert(!assoc_map(s.drop_last()).contains_key(s.last().0.deep_view())) by {
            if assoc_map(s.drop_last()).contains_key(s.last().0.deep_view()) {
                let i = choose|i: int|
                    0 <= i < s.drop_last().len() && #[trigger] s.drop_last()[i].0.deep_view()
                        == s.last().0.deep_view();
                assert(s[i].0.deep_view() == s[s.len() - 1].0.deep_view());
            }
        }
        assert(assoc_map(s).dom() =~= assoc_map(s.drop_last()).dom().insert(
            s.last().0.deep_view(),
        ));
    }
}

/// Appending a fresh pair denotes inserting it into the map.
pub(crate) proof fn lemma_assoc_map_push<K: DeepView, E>(s: Seq<(K, E)>, k: K, e: E)
    ensures
        assoc_map(s.push((k, e))) == assoc_map(s).insert(k.deep_view(), e),
{
    assert(s.push((k, e)).drop_last() =~= s);
    assert(s.push((k, e)).last() == (k, e));
}

/// Replacing the pair at position `i` with one whose key has the same
/// deep view denotes inserting the new entry under that view; the key
/// views, and their distinctness, are untouched.
pub(crate) proof fn lemma_assoc_map_update<K: DeepView, E>(s: Seq<(K, E)>, i: int, k: K, e: E)
    requires
        distinct_keys(s),
        0 <= i < s.len(),
        k.deep_view() == s[i].0.deep_view(),
    ensures
        distinct_keys(s.update(i, (k, e))),
        assoc_map(s.update(i, (k, e))) == assoc_map(s).insert(s[i].0.deep_view(), e),
    decreases s.len(),
{
    let t = s.update(i, (k, e));
    assert(distinct_keys(t)) by {
        assert(forall|j: int|
            0 <= j < s.len() ==> #[trigger] t[j].0.deep_view() == s[j].0.deep_view());
    }
    if i == s.len() - 1 {
        assert(t.drop_last() =~= s.drop_last());
        assert(t.last() == (k, e));
        assert(assoc_map(s.drop_last()).insert(s[i].0.deep_view(), s[i].1).insert(
            s[i].0.deep_view(),
            e,
        ) =~= assoc_map(s.drop_last()).insert(s[i].0.deep_view(), e));
    } else {
        assert(distinct_keys(s.drop_last())) by {
            assert(forall|m: int, j: int|
                0 <= m < j < s.drop_last().len() ==> s.drop_last()[m] == s[m]
                    && s.drop_last()[j] == s[j]);
        }
        assert(s.drop_last()[i] == s[i]);
        lemma_assoc_map_update(s.drop_last(), i, k, e);
        assert(t.drop_last() =~= s.drop_last().update(i, (k, e)));
        assert(t.last() == s.last());
        assert(s[i].0.deep_view() != s.last().0.deep_view());
        assert(assoc_map(s.drop_last()).insert(s[i].0.deep_view(), e).insert(
            s.last().0.deep_view(),
            s.last().1,
        ) =~= assoc_map(s.drop_last()).insert(s.last().0.deep_view(), s.last().1).insert(
            s[i].0.deep_view(),
            e,
        ));
    }
}

/// Removing the pair at position `i` denotes removing its key from the
/// map; the remaining keys stay distinct.
pub(crate) proof fn lemma_assoc_map_remove<K: DeepView, E>(s: Seq<(K, E)>, i: int)
    requires
        distinct_keys(s),
        0 <= i < s.len(),
    ensures
        distinct_keys(s.remove(i)),
        assoc_map(s.remove(i)) == assoc_map(s).remove(s[i].0.deep_view()),
    decreases s.len(),
{
    let t = s.remove(i);
    assert(distinct_keys(t)) by {
        assert(forall|j: int| 0 <= j < t.len() ==> t[j] == if j < i {
            s[j]
        } else {
            s[j + 1]
        });
    }
    assert(distinct_keys(s.drop_last())) by {
        assert(forall|m: int, j: int|
            0 <= m < j < s.drop_last().len() ==> s.drop_last()[m] == s[m] && s.drop_last()[j]
                == s[j]);
    }
    if i == s.len() - 1 {
        assert(t =~= s.drop_last());
        lemma_assoc_map_dom(s.drop_last());
        assert(!assoc_map(s.drop_last()).contains_key(s.last().0.deep_view())) by {
            if assoc_map(s.drop_last()).contains_key(s.last().0.deep_view()) {
                let j = choose|j: int|
                    0 <= j < s.drop_last().len() && #[trigger] s.drop_last()[j].0.deep_view()
                        == s.last().0.deep_view();
                assert(s[j].0.deep_view() == s[s.len() - 1].0.deep_view());
            }
        }
        assert(assoc_map(s.drop_last()).insert(s.last().0.deep_view(), s.last().1).remove(
            s.last().0.deep_view(),
        ) =~= assoc_map(s.drop_last()));
    } else {
        lemma_assoc_map_remove(s.drop_last(), i);
        assert(t.drop_last() =~= s.drop_last().remove(i));
        assert(t.last() == s.last());
        assert(s[i].0.deep_view() != s.last().0.deep_view());
        assert(s.drop_last()[i] == s[i]);
        assert(assoc_map(s.drop_last()).remove(s[i].0.deep_view()).insert(
            s.last().0.deep_view(),
            s.last().1,
        ) =~= assoc_map(s.drop_last()).insert(s.last().0.deep_view(), s.last().1).remove(
            s[i].0.deep_view(),
        ));
    }
}

/// Find the position of the first pair whose key equals `key`, comparing
/// with the key type's own `==`.
pub(crate) fn find_key<K: DeepView + PartialEq, E>(entries: &Vec<(K, E)>, key: &K) -> (r: Option<
    usize,
>)
    requires
        obeys_key_eq::<K>(),
    ensures
        match r {
            Some(i) => i < entries@.len() && entries@[i as int].0.deep_view() == key.deep_view(),
            None => forall|i: int|
                0 <= i < entries@.len() ==> entries@[i].0.deep_view() != key.deep_view(),
        },
{
    let n = entries.len();
    let mut i: usize = 0;
    while i < n
        invariant
            n == entries@.len(),
            i <= n,
            obeys_key_eq::<K>(),
            forall|j: int| 0 <= j < i ==> entries@[j].0.deep_view() != key.deep_view(),
        decreases n - i,
    {
        if entries[i].0 == *key {
            return Some(i);
        }
        i = i + 1;
    }
    None
}

} // verus!
