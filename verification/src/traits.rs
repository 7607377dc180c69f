use vstd::prelude::*;

use crate::cell::CellView;
use crate::entry::EntryView;
use crate::entry::TypeMapValue;
use crate::error::MapError;
use crate::error::render_key;
use crate::key::obeys_key_clone;
use crate::key::obeys_key_eq;
use crate::table::assoc_map;
use crate::table::distinct_keys;
use crate::table::find_key;
use crate::table::lemma_assoc_map_dom;
use crate::table::lemma_assoc_map_index;
use crate::table::lemma_assoc_map_len;
use crate::table::lemma_assoc_map_push;
use crate::table::lemma_assoc_map_remove;
use crate::table::lemma_assoc_map_update;
use crate::tag::TypeTag;

verus! {

/// The spec-level outcome of attempting to recover a stored value under
/// an identity tag.
pub enum Recovery<P> {
    /// An entry is present and the requested tag is the recorded one:
    /// recovery yields this payload.
    Value(P),
    /// No entry is present under the key.
    Missing,
    /// An entry is present, but its recorded tag differs from the
    /// requested one: access is refused entirely.
    Mismatch,
}

/// What recovering the concrete view of `m`'s entry at `kv` under `tag`
/// yields: the single rule every concrete-typed access follows.
pub open spec fn concrete_recovery<KV, P>(m: Map<KV, EntryView<P>>, kv: KV, tag: TypeTag) -> Recovery<
    P,
> {
    if !m.contains_key(kv) {
        Recovery::Missing
    } else if m[kv].concrete.tag != tag {
        Recovery::Mismatch
    } else {
        Recovery::Value(m[kv].concrete.payload)
    }
}

/// What recovering the capability view of `m`'s entry at `kv` under `tag`
/// yields: the same rule, gated on the capability tag recorded at
/// insertion and on nothing else.
pub open spec fn capability_recovery<KV, P>(
    m: Map<KV, EntryView<P>>,
    kv: KV,
    tag: TypeTag,
) -> Recovery<P> {
    if !m.contains_key(kv) {
        Recovery::Missing
    } else if m[kv].capability.tag != tag {
        Recovery::Mismatch
    } else {
        Recovery::Value(m[kv].capability.payload)
    }
}

/// The map of entry views a table of dual-view entries denotes.
spec fn entry_views<K: DeepView, P>(items: Seq<(K, TypeMapValue<P>)>) -> Map<
    <K as DeepView>::V,
    EntryView<P>,
> {
    assoc_map(items).map_values(|e: TypeMapValue<P>| e@)
}

proof fn lemma_views_index<K: DeepView, P>(items: Seq<(K, TypeMapValue<P>)>, i: int)
    requires
        distinct_keys(items),
        0 <= i < items.len(),
    ensures
        entry_views(items).contains_key(items[i].0.deep_view()),
        entry_views(items)[items[i].0.deep_view()] == items[i].1@,
{
    lemma_assoc_map_index(items, i);
}

proof fn lemma_views_dom<K: DeepView, P>(items: Seq<(K, TypeMapValue<P>)>)
    ensures
        entry_views(items).dom() =~= assoc_map(items).dom(),
        entry_views(items).dom().finite(),
        forall|kv: <K as DeepView>::V| #[trigger]
            entry_views(items).contains_key(kv) <==> exists|i: int|
                0 <= i < items.len() && #[trigger] items[i].0.deep_view() == kv,
{
    lemma_assoc_map_dom(items);
}

proof fn lemma_views_update<K: DeepView, P>(
    items: Seq<(K, TypeMapValue<P>)>,
    i: int,
    k: K,
    e: TypeMapValue<P>,
)
    requires
        distinct_keys(items),
        0 <= i < items.len(),
        k.deep_view() == items[i].0.deep_view(),
    ensures
        distinct_keys(items.update(i, (k, e))),
        entry_views(items.update(i, (k, e))) == entry_views(items).insert(
            items[i].0.deep_view(),
            e@,
        ),
{
    lemma_assoc_map_update(items, i, k, e);
    assert(assoc_map(items).insert(items[i].0.deep_view(), e).map_values(
        |x: TypeMapValue<P>| x@,
    ) =~= entry_views(items).insert(items[i].0.deep_view(), e@));
}

proof fn lemma_views_push<K: DeepView, P>(items: Seq<(K, TypeMapValue<P>)>, k: K, e: TypeMapValue<P>)
    ensures
        entry_views(items.push((k, e))) == entry_views(items).insert(k.deep_view(), e@),
{
    lemma_assoc_map_push(items, k, e);
    assert(assoc_map(items).insert(k.deep_view(), e).map_values(|x: TypeMapValue<P>| x@)
        =~= entry_views(items).insert(k.deep_view(), e@));
}

proof fn lemma_views_remove<K: DeepView, P>(items: Seq<(K, TypeMapValue<P>)>, i: int)
    requires
        distinct_keys(items),
        0 <= i < items.len(),
    ensures
        distinct_keys(items.remove(i)),
        entry_views(items.remove(i)) == entry_views(items).remove(items[i].0.deep_view()),
{
    lemma_assoc_map_remove(items, i);
    assert(assoc_map(items).remove(items[i].0.deep_view()).map_values(|x: TypeMapValue<P>| x@)
        =~= entry_views(items).remove(items[i].0.deep_view()));
}

/// A keyed store of dual-view entries: the trait-capable map.
///
/// Every entry holds one logical value reachable two ways: under the
/// [`TypeTag`] of its exact concrete type, for precise read and write
/// access ([`TraitTypeMap::with`], [`TraitTypeMap::with_mut`]), and under
/// the tag of the capability interface it was registered against, for
/// polymorphic access that needs no concrete type
/// ([`TraitTypeMap::with_trait`]). Tag matching is exact identity: no
/// subtyping, no coercion, and only the capability identity recorded at
/// insertion is honored.
///
/// The contracts model the store as a [`Map`](vstd::map::Map) from deep
/// key views to [`EntryView`]s; every operation says exactly how it reads
/// or rewrites that map. The keyed operations ask [`obeys_key_eq`] of the
/// key type, as [`crate::typed::TypeMapV`] does.
pub struct TraitTypeMap<K: DeepView, P> {
    items: Vec<(K, TypeMapValue<P>)>,
}

impl<K: DeepView, P> View for TraitTypeMap<K, P> {
    type V = Map<<K as DeepView>::V, EntryView<P>>;

    closed spec fn view(&self) -> Map<<K as DeepView>::V, EntryView<P>> {
        entry_views(self.items@)
    }
}

impl<K: DeepView, P> TraitTypeMap<K, P> {
    #[verifier::type_invariant]
    spec fn wf(self) -> bool {
        distinct_keys(self.items@)
    }
}

impl<K, P> TraitTypeMap<K, P> where
    K: DeepView + Clone + PartialEq + Eq + core::hash::Hash + core::fmt::Debug,
 {
    /// Creates a new, empty store.
    pub fn new() -> (store: Self)
        ensures
            store@ == Map::<<K as DeepView>::V, EntryView<P>>::empty(),
    {
        let store = TraitTypeMap { items: Vec::new() };
        proof {
            assert(store@ =~= Map::<<K as DeepView>::V, EntryView<P>>::empty());
        }
        store
    }

    /// Stores one value under `key`, reachable both ways: the caller
    /// materializes its source value twice, once as `concrete_value`
    /// under the tag of its concrete type and once as `trait_object`
    /// under the tag of the capability interface it registers. Any prior
    /// entry at `key` is replaced wholesale, and the count grows exactly
    /// when the key is genuinely new.
    pub fn set_trait(
        &mut self,
        key: K,
        concrete_tag: TypeTag,
        concrete_value: P,
        trait_tag: TypeTag,
        trait_object: P,
    ) -> (r: Result<(), MapError>)
        requires
            obeys_key_eq::<K>(),
        ensures
            r is Ok,
            final(self)@ == old(self)@.insert(
                key.deep_view(),
                EntryView {
                    concrete: CellView { tag: concrete_tag, payload: concrete_value },
                    capability: CellView { tag: trait_tag, payload: trait_object },
                },
            ),
            old(self)@.contains_key(key.deep_view()) ==> final(self)@.dom().len() == old(
                self,
            )@.dom().len(),
            !old(self)@.contains_key(key.deep_view()) ==> final(self)@.dom().len() == old(
                self,
            )@.dom().len() + 1,
    {
        let entry = TypeMapValue::build(concrete_tag, concrete_value, trait_tag, trait_object);
        proof {
            use_type_invariant(&*self);
        }
        let mut items: Vec<(K, TypeMapValue<P>)> = Vec::new();
        core::mem::swap(&mut items, &mut self.items);
        proof {
            lemma_assoc_map_len(items@);
            lemma_views_dom(items@);
        }
        match find_key(&items, &key) {
            Some(i) => {
                proof {
                    lemma_views_update(items@, i as int, key, entry);
                    lemma_assoc_map_len(items@.update(i as int, (key, entry)));
                    lemma_views_dom(items@.update(i as int, (key, entry)));
                    lemma_views_index(items@, i as int);
                }
                items.set(i, (key, entry));
            },
            None => {
                proof {
                    lemma_views_push(items@, key, entry);
                    assert(distinct_keys(items@.push((key, entry)))) by {
                        assert(forall|j: int|
                            0 <= j < items@.len() ==> items@.push((key, entry))[j] == items@[j]);
                    }
                    lemma_assoc_map_len(items@.push((key, entry)));
                    lemma_views_dom(items@.push((key, entry)));
                }
                items.push((key, entry));
            },
        }
        self.items = items;
        Ok(())
    }

    /// Runs read-only logic over the value's concrete view. The logic's
    /// result is owed exactly when the key is present and `tag` is the
    /// concrete identity recorded at insertion; a present entry with any
    /// other recorded identity is a type mismatch, never a reinterpreted
    /// value.
    pub fn with<F: FnOnce(&P) -> R, R>(&self, key: &K, tag: TypeTag, f: F) -> (r: Result<
        R,
        MapError,
    >)
        requires
            obeys_key_eq::<K>(),
            concrete_recovery(self@, key.deep_view(), tag) matches Recovery::Value(p)
                ==> call_requires(f, (&p,)),
        ensures
            match concrete_recovery(self@, key.deep_view(), tag) {
                Recovery::Value(p) => r matches Ok(out) && call_ensures(f, (&p,), out),
                Recovery::Missing => r matches Err(MapError::KeyNotFound(_)),
                Recovery::Mismatch => r == Err::<R, MapError>(MapError::TypeMismatch),
            },
    {
        proof {
            use_type_invariant(&*self);
        }
        match find_key(&self.items, key) {
            Some(i) => {
                proof {
                    lemma_views_index(self.items@, i as int);
                }
                match self.items[i].1.concrete_ref(tag) {
                    Some(payload) => Ok(f(payload)),
                    None => Err(MapError::TypeMismatch),
                }
            },
            None => {
                proof {
                    lemma_views_dom(self.items@);
                }
                Err(MapError::KeyNotFound(render_key(key)))
            },
        }
    }

    /// Runs mutating logic over the value's concrete view: the concrete
    /// payload is handed to `f`, and the payload `f` returns takes its
    /// place under the same tag. The capability view keeps the payload
    /// and tag it had: the two views are independent copies, and writing
    /// through one never shows through the other. The logic's result is
    /// owed exactly when the key is present with `tag` as the recorded
    /// concrete identity.
    pub fn with_mut<F: FnOnce(P) -> (P, R), R>(&mut self, key: &K, tag: TypeTag, f: F) -> (r:
        Result<R, MapError>)
        requires
            obeys_key_eq::<K>(),
            concrete_recovery(old(self)@, key.deep_view(), tag) matches Recovery::Value(p)
                ==> call_requires(f, (p,)),
        ensures
            match concrete_recovery(old(self)@, key.deep_view(), tag) {
                Recovery::Value(p) => r matches Ok(out) && final(self)@ == old(self)@.insert(
                    key.deep_view(),
                    EntryView {
                        concrete: CellView {
                            tag,
                            payload: final(self)@[key.deep_view()].concrete.payload,
                        },
                        capability: old(self)@[key.deep_view()].capability,
                    },
                ) && call_ensures(
                    f,
                    (p,),
                    (final(self)@[key.deep_view()].concrete.payload, out),
                ),
                Recovery::Missing => final(self)@ == old(self)@ && r matches Err(
                    MapError::KeyNotFound(_),
                ),
                Recovery::Mismatch => final(self)@ == old(self)@ && r == Err::<R, MapError>(
                    MapError::TypeMismatch,
                ),
            },
    {
        proof {
            use_type_invariant(&*self);
        }
        let ghost m = self@;
        let mut items: Vec<(K, TypeMapValue<P>)> = Vec::new();
        core::mem::swap(&mut items, &mut self.items);
        match find_key(&items, key) {
            Some(i) => {
                let ghost before = items@;
                let ghost kv = key.deep_view();
                proof {
                    lemma_views_index(before, i as int);
                    lemma_views_remove(before, i as int);
                }
                let tag_matches = entry_tag_matches(&items, i, tag);
                if !tag_matches {
                    self.items = items;
                    return Err(MapError::TypeMismatch);
                }
                let pair = items.remove(i);
                let (entry, out_opt) = pair.1.update_concrete(tag, f);
                let pair = (pair.0, entry);
                let ghost removed = items@;
                let ghost new_pair = pair;
                proof {
                    lemma_views_push(removed, new_pair.0, new_pair.1);
                    lemma_views_dom(removed);
                    assert(!entry_views(removed).contains_key(kv)) by {
                        if entry_views(removed).contains_key(kv) {
                            assert(entry_views(before).remove(kv).contains_key(kv));
                        }
                    }
                    assert(distinct_keys(removed.push(new_pair))) by {
                        assert(forall|j: int|
                            0 <= j < removed.len() ==> removed.push(new_pair)[j] == removed[j]);
                        assert forall|j: int| 0 <= j < removed.len() implies removed[j].0.deep_view()
                            != kv by {
                            if removed[j].0.deep_view() == kv {
                                assert(entry_views(removed).contains_key(kv)) by {
                                    lemma_views_index(removed, j);
                                }
                            }
                        }
                    }
                    assert(entry_views(before).remove(kv).insert(kv, new_pair.1@) =~= entry_views(
                        before,
                    ).insert(kv, new_pair.1@));
                }
                items.push(pair);
                self.items = items;
                let out = out_opt.unwrap();
                proof {
                    assert(new_pair.0.deep_view() == kv);
                    assert(self@ == m.insert(kv, new_pair.1@));
                    assert(self@[kv] == new_pair.1@);
                }
                Ok(out)
            },
            None => {
                proof {
                    lemma_views_dom(items@);
                }
                self.items = items;
                Err(MapError::KeyNotFound(render_key(key)))
            },
        }
    }

    /// Runs read-only logic over the value's capability view. The logic's
    /// result is owed exactly when the key is present and `tag` is the
    /// capability identity recorded at insertion; only that recorded
    /// identity is honored, whatever other interfaces the concrete value
    /// might provide.
    pub fn with_trait<F: FnOnce(&P) -> R, R>(&self, key: &K, tag: TypeTag, f: F) -> (r: Result<
        R,
        MapError,
    >)
        requires
            obeys_key_eq::<K>(),
            capability_recovery(self@, key.deep_view(), tag) matches Recovery::Value(p)
                ==> call_requires(f, (&p,)),
        ensures
            match capability_recovery(self@, key.deep_view(), tag) {
                Recovery::Value(p) => r matches Ok(out) && call_ensures(f, (&p,), out),
                Recovery::Missing => r matches Err(MapError::KeyNotFound(_)),
                Recovery::Mismatch => r == Err::<R, MapError>(MapError::TypeMismatch),
            },
    {
        proof {
            use_type_invariant(&*self);
        }
        match find_key(&self.items, key) {
            Some(i) => {
                proof {
                    lemma_views_index(self.items@, i as int);
                }
                match self.items[i].1.capability_ref(tag) {
                    Some(payload) => Ok(f(payload)),
                    None => Err(MapError::TypeMismatch),
                }
            },
            None => {
                proof {
                    lemma_views_dom(self.items@);
                }
                Err(MapError::KeyNotFound(render_key(key)))
            },
        }
    }

    /// Removes the entry under `key`, whole: both views become
    /// unreachable at once. Reports whether an entry was present.
    pub fn remove(&mut self, key: &K) -> (r: Result<bool, MapError>)
        requires
            obeys_key_eq::<K>(),
        ensures
            r == Ok::<bool, MapError>(old(self)@.contains_key(key.deep_view())),
            final(self)@ == old(self)@.remove(key.deep_view()),
    {
        proof {
            use_type_invariant(&*self);
        }
        let ghost m = self@;
        let mut items: Vec<(K, TypeMapValue<P>)> = Vec::new();
        core::mem::swap(&mut items, &mut self.items);
        let present = match find_key(&items, key) {
            Some(i) => {
                proof {
                    lemma_views_index(items@, i as int);
                    lemma_views_remove(items@, i as int);
                }
                items.remove(i);
                true
            },
            None => {
                proof {
                    lemma_views_dom(items@);
                    assert(m.remove(key.deep_view()) =~= m);
                }
                false
            },
        };
        self.items = items;
        Ok(present)
    }

    /// True exactly when the store holds an entry under `key`.
    pub fn contains_key(&self, key: &K) -> (r: Result<bool, MapError>)
        requires
            obeys_key_eq::<K>(),
        ensures
            r == Ok::<bool, MapError>(self@.contains_key(key.deep_view())),
    {
        proof {
            use_type_invariant(&*self);
        }
        match find_key(&self.items, key) {
            Some(i) => {
                proof {
                    lemma_views_index(self.items@, i as int);
                }
                Ok(true)
            },
            None => {
                proof {
                    lemma_views_dom(self.items@);
                }
                Ok(false)
            },
        }
    }

    /// Clones of all keys, one per stored entry, in no promised order:
    /// a snapshot at call time.
    pub fn keys(&self) -> (r: Result<Vec<K>, MapError>)
        requires
            obeys_key_clone::<K>(),
        ensures
            r matches Ok(ks) && ks@.len() == self@.dom().len() && (forall|i: int|
                0 <= i < ks@.len() ==> self@.contains_key(#[trigger] ks@[i].deep_view())) && (
            forall|i: int, j: int|
                0 <= i < j < ks@.len() ==> ks@[i].deep_view() != ks@[j].deep_view()),
    {
        proof {
            use_type_invariant(&*self);
            lemma_assoc_map_len(self.items@);
            lemma_views_dom(self.items@);
        }
        let n = self.items.len();
        let mut ks: Vec<K> = Vec::new();
        let mut i: usize = 0;
        while i < n
            invariant
                obeys_key_clone::<K>(),
                n == self.items@.len(),
                i <= n,
                ks@.len() == i,
                forall|j: int|
                    0 <= j < i ==> #[trigger] ks@[j].deep_view() == self.items@[j].0.deep_view(),
            decreases n - i,
        {
            ks.push(self.items[i].0.clone());
            i = i + 1;
        }
        proof {
            assert forall|i: int|
                0 <= i < ks@.len() implies self@.contains_key(
                #[trigger] ks@[i].deep_view(),
            ) by {
                lemma_views_index(self.items@, i);
            }
            assert(distinct_keys(self.items@));
        }
        Ok(ks)
    }

    /// The number of entries in the store.
    pub fn len(&self) -> (r: Result<usize, MapError>)
        ensures
            r matches Ok(n) && n == self@.dom().len(),
    {
        proof {
            use_type_invariant(&*self);
            lemma_assoc_map_len(self.items@);
            lemma_views_dom(self.items@);
        }
        Ok(self.items.len())
    }

    /// True exactly when the store holds no entry.
    pub fn is_empty(&self) -> (r: Result<bool, MapError>)
        ensures
            r matches Ok(b) && b == (self@.dom().len() == 0),
    {
        proof {
            use_type_invariant(&*self);
            lemma_assoc_map_len(self.items@);
            lemma_views_dom(self.items@);
        }
        Ok(self.items.len() == 0)
    }
}

/// Whether the entry at position `i` records `tag` as its concrete
/// identity, read without disturbing the table.
fn entry_tag_matches<K: DeepView, P>(
    items: &Vec<(K, TypeMapValue<P>)>,
    i: usize,
    tag: TypeTag,
) -> (r: bool)
    requires
        i < items@.len(),
    ensures
        r == (items@[i as int].1@.concrete.tag == tag),
{
    items[i].1.concrete_ref(tag).is_some()
}

impl<K, P> Default for TraitTypeMap<K, P> where
    K: DeepView + Clone + PartialEq + Eq + core::hash::Hash + core::fmt::Debug,
 {
    /// An empty store.
    fn default() -> (store: Self)
        ensures
            store@ == Map::<<K as DeepView>::V, EntryView<P>>::empty(),
    {
        TraitTypeMap::new()
    }
}

} // verus!
