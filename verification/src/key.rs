use vstd::prelude::*;

verus! {

/// What the stores ask of a key type's `==`: that it decides equality of
/// deep views. The contracts of every keyed operation model a key by its
/// deep view, so the executable comparison must agree with that model.
pub open spec fn obeys_key_eq<K: DeepView + PartialEq>() -> bool {
    forall|x: &K, y: &K, r: bool|
        #[trigger] call_ensures(<K as PartialEq>::eq, (x, y), r) ==> r == (x.deep_view()
            == y.deep_view())
}

/// What `keys()` asks of a key type's `Clone`: that a clone keeps the deep
/// view, so the returned keys denote exactly the stored ones.
pub open spec fn obeys_key_clone<K: DeepView + Clone>() -> bool {
    forall|x: &K, c: K|
        #[trigger] call_ensures(<K as Clone>::clone, (x,), c) ==> c.deep_view() == x.deep_view()
}

/// `String` keys compare and clone by their text, so they satisfy both key
/// obligations. Verified callers that key a store by `String` can discharge
/// the stores' `requires` with this lemma.
pub proof fn lemma_string_is_key()
    ensures
        obeys_key_eq::<String>(),
        obeys_key_clone::<String>(),
{
    assert forall|x: &String, y: &String, r: bool|
        #[trigger] call_ensures(<String as PartialEq>::eq, (x, y), r) implies r == (x.deep_view()
        == y.deep_view()) by {}
    assert forall|x: &String, c: String|
        #[trigger] call_ensures(<String as Clone>::clone, (x,), c) implies c.deep_view()
        == x.deep_view() by {}
}

/// `u64` keys compare by value and copy on clone, so they satisfy both key
/// obligations.
pub proof fn lemma_u64_is_key()
    ensures
        obeys_key_eq::<u64>(),
        obeys_key_clone::<u64>(),
{
    assert forall|x: &u64, y: &u64, r: bool|
        #[trigger] call_ensures(<u64 as PartialEq>::eq, (x, y), r) implies r == (x.deep_view()
        == y.deep_view()) by {}
    assert forall|x: &u64, c: u64|
        #[trigger] call_ensures(<u64 as Clone>::clone, (x,), c) implies c.deep_view()
        == x.deep_view() by {}
}

} // verus!
