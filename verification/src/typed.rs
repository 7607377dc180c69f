use vstd::prelude::*;

use crate::error::MapError;
use crate::error::render_key;
use crate::key::obeys_key_clone;
use crate::key::obeys_key_eq;
use crate::table::assoc_map;
use crate::table::distinct_keys;
use crate::table::find_key;
use crate::table::lemma_assoc_map_dom;
use crate::table::lemma_assoc_map_index;
use crate::table::lemma_assoc_map_len;
use crate::table::lemma_assoc_map_push;
use crate::table::lemma_assoc_map_remove;
use crate::table::lemma_assoc_map_update;

verus! {

/// Whether `vs` is a snapshot of the values of `m`: under some
/// assignment of distinct keys of `m`, one per position, each element is
/// a clone of the value stored there. Together with a length equal to
/// `m`'s size, this makes `vs` a clone of every stored value exactly
/// once, in some order. It is what [`TypeMapV::values`] returns.
pub open spec fn values_snapshot<KV, V: Clone>(m: Map<KV, V>, vs: Seq<V>) -> bool {
    exists|ks: Seq<KV>|
        #![trigger ks.len()]
        ks.len() == vs.len() && (forall|i: int, j: int|
            0 <= i < j < ks.len() ==> ks[i] != ks[j]) && (forall|i: int|
            0 <= i < ks.len() ==> m.contains_key(#[trigger] ks[i]) && cloned::<V>(m[ks[i]], vs[i]))
}

/// A keyed store whose values all share one declared type.
///
/// The store owns a table from keys to values, with unique keys and no
/// meaningful ordering. Its contracts model the table as a
/// [`Map`](vstd::map::Map) from deep key views to values: every operation
/// says exactly how it reads or rewrites that map. Values are reached
/// by cloning ([`TypeMapV::get`], [`TypeMapV::values`]), by running
/// caller-supplied logic over a borrowed reference ([`TypeMapV::with`],
/// [`TypeMapV::apply`]), or by handing one value through caller-supplied
/// logic and storing what comes back ([`TypeMapV::with_mut`]).
///
/// The keyed operations ask [`obeys_key_eq`] of the key type: its `==`
/// must decide equality of deep views, which is what the model keys are.
/// `String` and the unsigned integers qualify; see [`crate::key`].
pub struct TypeMapV<K: DeepView, V> {
    items: Vec<(K, V)>,
}

impl<K: DeepView, V> View for TypeMapV<K, V> {
    type V = Map<<K as DeepView>::V, V>;

    closed spec fn view(&self) -> Map<<K as DeepView>::V, V> {
        assoc_map(self.items@)
    }
}

impl<K: DeepView, V> TypeMapV<K, V> {
    #[verifier::type_invariant]
    spec fn wf(self) -> bool {
        distinct_keys(self.items@)
    }
}

impl<K, V> TypeMapV<K, V> where
    K: DeepView + Clone + PartialEq + Eq + core::hash::Hash + core::fmt::Debug,
 {
    /// Creates a new, empty store.
    pub fn new() -> (store: Self)
        ensures
            store@ == Map::<<K as DeepView>::V, V>::empty(),
    {
        TypeMapV { items: Vec::new() }
    }

    /// Stores `value` under `key`, replacing any prior entry wholesale.
    /// The count grows exactly when the key is genuinely new.
    pub fn set(&mut self, key: K, value: V) -> (r: Result<(), MapError>)
        requires
            obeys_key_eq::<K>(),
        ensures
            r is Ok,
            final(self)@ == old(self)@.insert(key.deep_view(), value),
            old(self)@.contains_key(key.deep_view()) ==> final(self)@.dom().len() == old(
                self,
            )@.dom().len(),
            !old(self)@.contains_key(key.deep_view()) ==> final(self)@.dom().len() == old(
                self,
            )@.dom().len() + 1,
    {
        proof {
            use_type_invariant(&*self);
        }
        let ghost m = self@;
        let mut items: Vec<(K, V)> = Vec::new();
        core::mem::swap(&mut items, &mut self.items);
        proof {
            lemma_assoc_map_len(items@);
            lemma_assoc_map_dom(items@);
        }
        match find_key(&items, &key) {
            Some(i) => {
                proof {
                    lemma_assoc_map_update(items@, i as int, key, value);
                    lemma_assoc_map_len(items@.update(i as int, (key, value)));
                }
                items.set(i, (key, value));
            },
            None => {
                proof {
                    lemma_assoc_map_push(items@, key, value);
                    assert(distinct_keys(items@.push((key, value)))) by {
                        assert(forall|j: int|
                            0 <= j < items@.len() ==> items@.push((key, value))[j] == items@[j]);
                    }
                    lemma_assoc_map_len(items@.push((key, value)));
                }
                items.push((key, value));
            },
        }
        self.items = items;
        Ok(())
    }

    /// Retrieves a clone of the value under `key`, owed exactly when the
    /// key is present.
    pub fn get(&self, key: &K) -> (r: Result<V, MapError>) where V: Clone
        requires
            obeys_key_eq::<K>(),
        ensures
            match r {
                Ok(v) => self@.contains_key(key.deep_view()) && cloned::<V>(
                    self@[key.deep_view()],
                    v,
                ),
                Err(e) => !self@.contains_key(key.deep_view()) && e matches MapError::KeyNotFound(
                    _,
                ),
            },
    {
        proof {
            use_type_invariant(&*self);
        }
        match find_key(&self.items, key) {
            Some(i) => {
                proof {
                    lemma_assoc_map_index(self.items@, i as int);
                }
                Ok(self.items[i].1.clone())
            },
            None => {
                proof {
                    lemma_assoc_map_dom(self.items@);
                }
                Err(MapError::KeyNotFound(render_key(key)))
            },
        }
    }

    /// Removes the entry under `key`; reports whether one was present.
    pub fn remove(&mut self, key: &K) -> (r: Result<bool, MapError>)
        requires
            obeys_key_eq::<K>(),
        ensures
            r == Ok::<bool, MapError>(old(self)@.contains_key(key.deep_view())),
            final(self)@ == old(self)@.remove(key.deep_view()),
    {
        proof {
            use_type_invariant(&*self);
        }
        let ghost m = self@;
        let mut items: Vec<(K, V)> = Vec::new();
        core::mem::swap(&mut items, &mut self.items);
        let present = match find_key(&items, key) {
            Some(i) => {
                proof {
                    lemma_assoc_map_index(items@, i as int);
                    lemma_assoc_map_remove(items@, i as int);
                }
                items.remove(i);
                true
            },
            None => {
                proof {
                    lemma_assoc_map_dom(items@);
                    assert(m.remove(key.deep_view()) =~= m);
                }
                false
            },
        };
        self.items = items;
        Ok(present)
    }

    /// Runs `f` once for each stored pair, stopping at its first error.
    pub fn apply<F: Fn(&K, &V) -> Result<(), MapError>>(&self, f: F) -> (r: Result<(), MapError>)
        requires
            forall|k: &K, v: &V|
                self@.contains_key(k.deep_view()) && self@[k.deep_view()] == *v
                    ==> #[trigger] call_requires(f, (k, v)),
        ensures
            match r {
                Ok(_) => forall|kv: <K as DeepView>::V| #[trigger]
                    self@.contains_key(kv) ==> exists|k: &K, v: &V|
                        k.deep_view() == kv && *v == self@[kv] && #[trigger] call_ensures(
                            f,
                            (k, v),
                            Ok::<(), MapError>(()),
                        ),
                Err(e) => exists|k: &K, v: &V|
                    self@.contains_key(k.deep_view()) && *v == self@[k.deep_view()]
                        && #[trigger] call_ensures(f, (k, v), Err::<(), MapError>(e)),
            },
    {
        proof {
            use_type_invariant(&*self);
        }
        let n = self.items.len();
        let mut i: usize = 0;
        while i < n
            invariant
                n == self.items@.len(),
                i <= n,
                distinct_keys(self.items@),
                self@ == assoc_map(self.items@),
                forall|k: &K, v: &V|
                    self@.contains_key(k.deep_view()) && self@[k.deep_view()] == *v
                        ==> #[trigger] call_requires(f, (k, v)),
                forall|j: int|
                    0 <= j < i ==> #[trigger] call_ensures(
                        f,
                        (&self.items@[j].0, &self.items@[j].1),
                        Ok::<(), MapError>(()),
                    ),
            decreases n - i,
        {
            proof {
                lemma_assoc_map_index(self.items@, i as int);
            }
            let key_ref = &self.items[i].0;
            let value_ref = &self.items[i].1;
            match f(key_ref, value_ref) {
                Ok(u) => {
                    proof {
                        assert(u == ());
                        assert(call_ensures(f, (key_ref, value_ref), Ok::<(), MapError>(u)));
                    }
                },
                Err(e) => {
                    return Err(e);
                },
            }
            i = i + 1;
        }
        proof {
            lemma_assoc_map_dom(self.items@);
            assert forall|kv: <K as DeepView>::V| #[trigger]
                self@.contains_key(kv) implies exists|k: &K, v: &V|
                k.deep_view() == kv && *v == self@[kv] && #[trigger] call_ensures(
                    f,
                    (k, v),
                    Ok::<(), MapError>(()),
                ) by {
                let j = choose|j: int|
                    0 <= j < self.items@.len() && #[trigger] self.items@[j].0.deep_view() == kv;
                lemma_assoc_map_index(self.items@, j);
                assert(call_ensures(
                    f,
                    (&self.items@[j].0, &self.items@[j].1),
                    Ok::<(), MapError>(()),
                ));
            }
        }
        Ok(())
    }

    /// The number of entries in the store.
    pub fn len(&self) -> (r: Result<usize, MapError>)
        ensures
            r matches Ok(n) && n == self@.dom().len(),
    {
        proof {
            use_type_invariant(&*self);
            lemma_assoc_map_len(self.items@);
        }
        Ok(self.items.len())
    }

    /// True exactly when the store holds no entry.
    pub fn is_empty(&self) -> (r: Result<bool, MapError>)
        ensures
            r matches Ok(b) && b == (self@.dom().len() == 0),
    {
        proof {
            use_type_invariant(&*self);
            lemma_assoc_map_len(self.items@);
        }
        Ok(self.items.len() == 0)
    }

    /// True exactly when the store holds an entry under `key`.
    pub fn contains_key(&self, key: &K) -> (r: Result<bool, MapError>)
        requires
            obeys_key_eq::<K>(),
        ensures
            r == Ok::<bool, MapError>(self@.contains_key(key.deep_view())),
    {
        proof {
            use_type_invariant(&*self);
        }
        match find_key(&self.items, key) {
            Some(i) => {
                proof {
                    lemma_assoc_map_index(self.items@, i as int);
                }
                Ok(true)
            },
            None => {
                proof {
                    lemma_assoc_map_dom(self.items@);
                }
                Ok(false)
            },
        }
    }

    /// Clones of all keys, one per stored entry, in no promised order.
    pub fn keys(&self) -> (r: Result<Vec<K>, MapError>)
        requires
            obeys_key_clone::<K>(),
        ensures
            r matches Ok(ks) && ks@.len() == self@.dom().len() && (forall|i: int|
                0 <= i < ks@.len() ==> self@.contains_key(#[trigger] ks@[i].deep_view())) && (
            forall|i: int, j: int|
                0 <= i < j < ks@.len() ==> ks@[i].deep_view() != ks@[j].deep_view()),
    {
        proof {
            use_type_invariant(&*self);
            lemma_assoc_map_len(self.items@);
        }
        let n = self.items.len();
        let mut ks: Vec<K> = Vec::new();
        let mut i: usize = 0;
        while i < n
            invariant
                obeys_key_clone::<K>(),
                n == self.items@.len(),
                i <= n,
                ks@.len() == i,
                forall|j: int|
                    0 <= j < i ==> #[trigger] ks@[j].deep_view() == self.items@[j].0.deep_view(),
            decreases n - i,
        {
            ks.push(self.items[i].0.clone());
            i = i + 1;
        }
        proof {
            assert forall|i: int|
                0 <= i < ks@.len() implies self@.contains_key(
                #[trigger] ks@[i].deep_view(),
            ) by {
                lemma_assoc_map_index(self.items@, i);
            }
            assert(distinct_keys(self.items@));
        }
        Ok(ks)
    }

    /// Clones of all values, one per stored entry, in no promised order.
    pub fn values(&self) -> (r: Result<Vec<V>, MapError>) where V: Clone
        ensures
            r matches Ok(vs) && vs@.len() == self@.dom().len() && values_snapshot(self@, vs@),
    {
        proof {
            use_type_invariant(&*self);
            lemma_assoc_map_len(self.items@);
        }
        let n = self.items.len();
        let mut vs: Vec<V> = Vec::new();
        let mut i: usize = 0;
        while i < n
            invariant
                n == self.items@.len(),
                i <= n,
                vs@.len() == i,
                forall|j: int|
                    0 <= j < i ==> cloned::<V>(self.items@[j].1, #[trigger] vs@[j]),
            decreases n - i,
        {
            vs.push(self.items[i].1.clone());
            i = i + 1;
        }
        proof {
            let ks = Seq::new(self.items@.len(), |i: int| self.items@[i].0.deep_view());
            assert(ks.len() == vs@.len());
            assert forall|i: int| 0 <= i < ks.len() implies self@.contains_key(
                #[trigger] ks[i],
            ) && cloned::<V>(self@[ks[i]], vs@[i]) by {
                lemma_assoc_map_index(self.items@, i);
            }
            assert(values_snapshot(self@, vs@));
        }
        Ok(vs)
    }

    /// Runs read-only logic over the value under `key`; the logic's result
    /// is owed exactly when the key is present.
    pub fn with<F: FnOnce(&V) -> R, R>(&self, key: &K, f: F) -> (r: Result<R, MapError>)
        requires
            obeys_key_eq::<K>(),
            self@.contains_key(key.deep_view()) ==> call_requires(
                f,
                (&self@[key.deep_view()],),
            ),
        ensures
            match r {
                Ok(out) => self@.contains_key(key.deep_view()) && call_ensures(
                    f,
                    (&self@[key.deep_view()],),
                    out,
                ),
                Err(e) => !self@.contains_key(key.deep_view()) && e
                    matches MapError::KeyNotFound(_),
            },
    {
        proof {
            use_type_invariant(&*self);
        }
        match find_key(&self.items, key) {
            Some(i) => {
                proof {
                    lemma_assoc_map_index(self.items@, i as int);
                }
                Ok(f(&self.items[i].1))
            },
            None => {
                proof {
                    lemma_assoc_map_dom(self.items@);
                }
                Err(MapError::KeyNotFound(render_key(key)))
            },
        }
    }

    /// Runs mutating logic over the value under `key`: the value is handed
    /// to `f`, and the value `f` returns takes its place. The logic's
    /// result is owed exactly when the key is present, and no other entry
    /// is touched.
    pub fn with_mut<F: FnOnce(V) -> (V, R), R>(&mut self, key: &K, f: F) -> (r: Result<
        R,
        MapError,
    >)
        requires
            obeys_key_eq::<K>(),
            old(self)@.contains_key(key.deep_view()) ==> call_requires(
                f,
                (old(self)@[key.deep_view()],),
            ),
        ensures
            r is Ok <==> old(self)@.contains_key(key.deep_view()),
            r matches Ok(out) ==> final(self)@ == old(self)@.insert(
                key.deep_view(),
                final(self)@[key.deep_view()],
            ) && call_ensures(
                f,
                (old(self)@[key.deep_view()],),
                (final(self)@[key.deep_view()], out),
            ),
            r matches Err(e) ==> final(self)@ == old(self)@ && e matches MapError::KeyNotFound(_),
    {
        proof {
            use_type_invariant(&*self);
        }
        let ghost m = self@;
        let mut items: Vec<(K, V)> = Vec::new();
        core::mem::swap(&mut items, &mut self.items);
        match find_key(&items, key) {
            Some(i) => {
                let ghost before = items@;
                let ghost kv = key.deep_view();
                proof {
                    lemma_assoc_map_index(before, i as int);
                    lemma_assoc_map_remove(before, i as int);
                }
                let pair = items.remove(i);
                let (new_value, out) = f(pair.1);
                let pair = (pair.0, new_value);
                let ghost removed = items@;
                let ghost new_pair = pair;
                proof {
                    lemma_assoc_map_push(removed, new_pair.0, new_pair.1);
                    lemma_assoc_map_dom(removed);
                    assert(!assoc_map(removed).contains_key(kv)) by {
                        if assoc_map(removed).contains_key(kv) {
                            assert(assoc_map(before).remove(kv).contains_key(kv));
                        }
                    }
                    assert(distinct_keys(removed.push(new_pair))) by {
                        assert(forall|j: int|
                            0 <= j < removed.len() ==> removed.push(new_pair)[j] == removed[j]);
                        assert forall|j: int| 0 <= j < removed.len() implies removed[j].0.deep_view()
                            != kv by {
                            if removed[j].0.deep_view() == kv {
                                assert(assoc_map(removed).contains_key(kv)) by {
                                    lemma_assoc_map_index(removed, j);
                                }
                            }
                        }
                    }
                    assert(assoc_map(before).remove(kv).insert(kv, new_pair.1) =~= assoc_map(
                        before,
                    ).insert(kv, new_pair.1));
                }
                items.push(pair);
                self.items = items;
                proof {
                    assert(new_pair.0.deep_view() == kv);
                    assert(self@ == m.insert(kv, new_pair.1));
                    assert(self@[kv] == new_pair.1);
                }
                Ok(out)
            },
            None => {
                proof {
                    lemma_assoc_map_dom(items@);
                }
                self.items = items;
                Err(MapError::KeyNotFound(render_key(key)))
            },
        }
    }
}

impl<K, V> Default for TypeMapV<K, V> where
    K: DeepView + Clone + PartialEq + Eq + core::hash::Hash + core::fmt::Debug,
 {
    /// An empty store.
    fn default() -> (store: Self)
        ensures
            store@ == Map::<<K as DeepView>::V, V>::empty(),
    {
        TypeMapV::new()
    }
}

} // verus!
