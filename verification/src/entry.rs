use vstd::prelude::*;

use crate::cell::AnyValue;
use crate::cell::CellView;
use crate::tag::TypeTag;

verus! {

/// The model of a dual-view entry: the concrete cell and the capability
/// cell, each a tagged payload of its own.
pub struct EntryView<P> {
    pub concrete: CellView<P>,
    pub capability: CellView<P>,
}

/// One stored value materialized as two independent type-erased cells.
///
/// The concrete cell holds the value under the tag of its exact concrete
/// type; the capability cell holds a second materialization of the same
/// source value under the tag of the capability interface it was
/// registered against. Both cells are populated at one build call and are
/// independent copies from then on: mutating the payload of one view never
/// propagates to the other.
pub struct TypeMapValue<P> {
    concrete_value: AnyValue<P>,
    trait_object: AnyValue<P>,
}

impl<P> View for TypeMapValue<P> {
    type V = EntryView<P>;

    closed spec fn view(&self) -> EntryView<P> {
        EntryView { concrete: self.concrete_value@, capability: self.trait_object@ }
    }
}

impl<P> TypeMapValue<P> {
    /// Build both cells at one call: `concrete_value` under `concrete_tag`
    /// and `trait_object` under `trait_tag`. The caller materializes the
    /// two duplicates of its source value; no further duplication happens
    /// until the entry is replaced.
    pub fn build(
        concrete_tag: TypeTag,
        concrete_value: P,
        trait_tag: TypeTag,
        trait_object: P,
    ) -> (entry: Self)
        ensures
            entry@ == (EntryView {
                concrete: CellView { tag: concrete_tag, payload: concrete_value },
                capability: CellView { tag: trait_tag, payload: trait_object },
            }),
    {
        TypeMapValue {
            concrete_value: AnyValue::new(concrete_tag, concrete_value),
            trait_object: AnyValue::new(trait_tag, trait_object),
        }
    }

    /// Recover the concrete view read-only: a reference to the concrete
    /// payload if `tag` matches the recorded concrete identity.
    pub fn concrete_ref(&self, tag: TypeTag) -> (r: Option<&P>)
        ensures
            self@.concrete.tag == tag ==> r == Some(&self@.concrete.payload),
            self@.concrete.tag != tag ==> r is None,
    {
        self.concrete_value.downcast_ref(tag)
    }

    /// Recover the concrete view exclusively, leaving the capability cell
    /// untouched: whatever is written through the returned reference, the
    /// capability view keeps the payload and tag it had.
    pub fn concrete_mut(&mut self, tag: TypeTag) -> (r: Option<&mut P>)
        ensures
            old(self)@.concrete.tag != tag ==> r is None && *final(self) == *old(self),
            old(self)@.concrete.tag == tag ==> r is Some && *r.unwrap()
                == old(self)@.concrete.payload && final(self)@ == (EntryView {
                concrete: CellView { tag, payload: *final(r.unwrap()) },
                capability: old(self)@.capability,
            }),
    {
        self.concrete_value.downcast_mut(tag)
    }

    /// Rebuild the entry around its concrete payload: if `tag` matches the
    /// recorded concrete identity, the payload is handed to `f` by value
    /// and the value `f` returns takes its place, under the same tag and
    /// beside the untouched capability cell. On a mismatch the entry is
    /// returned unchanged and `f` is never run.
    pub fn update_concrete<F: FnOnce(P) -> (P, R), R>(self, tag: TypeTag, f: F) -> (r: (
        Self,
        Option<R>,
    ))
        requires
            self@.concrete.tag == tag ==> call_requires(f, (self@.concrete.payload,)),
        ensures
            self@.concrete.tag != tag ==> r.0 == self && r.1 is None,
            self@.concrete.tag == tag ==> (r.1 matches Some(out) && r.0@ == (EntryView {
                concrete: CellView { tag, payload: r.0@.concrete.payload },
                capability: self@.capability,
            }) && call_ensures(f, (self@.concrete.payload,), (r.0@.concrete.payload, out))),
    {
        if self.concrete_value.is_type(tag) {
            let (concrete_tag, payload) = self.concrete_value.into_parts();
            let (new_payload, out) = f(payload);
            let entry = TypeMapValue {
                concrete_value: AnyValue::new(concrete_tag, new_payload),
                trait_object: self.trait_object,
            };
            (entry, Some(out))
        } else {
            (self, None)
        }
    }

    /// Recover the capability view read-only: a reference to the
    /// capability payload if `tag` matches the identity recorded at
    /// registration. Only that recorded identity is honored, whatever
    /// other interfaces the concrete value might provide.
    pub fn capability_ref(&self, tag: TypeTag) -> (r: Option<&P>)
        ensures
            self@.capability.tag == tag ==> r == Some(&self@.capability.payload),
            self@.capability.tag != tag ==> r is None,
    {
        self.trait_object.downcast_ref(tag)
    }
}

} // verus!
