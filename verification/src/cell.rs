use vstd::prelude::*;

use crate::tag::TypeTag;

verus! {

/// The model of a type-erased cell: the identity tag of the type the
/// payload was erased from, together with the payload itself.
pub struct CellView<P> {
    pub tag: TypeTag,
    pub payload: P,
}

/// A container for one type-erased value that preserves type identity.
///
/// The cell pairs an opaque payload with the [`TypeTag`] of the type it was
/// erased from. The two are set together at construction and never
/// independently, and the payload can only be recovered under the tag that
/// was recorded: a request under any other tag is refused entirely, never
/// answered with a reinterpreted reference.
pub struct AnyValue<P> {
    type_tag: TypeTag,
    value: P,
}

impl<P> View for AnyValue<P> {
    type V = CellView<P>;

    closed spec fn view(&self) -> CellView<P> {
        CellView { tag: self.type_tag, payload: self.value }
    }
}

impl<P> AnyValue<P> {
    /// Erase `value`, recording `tag` as the identity of its type.
    /// Takes ownership of the value.
    pub fn new(tag: TypeTag, value: P) -> (cell: Self)
        ensures
            cell@ == (CellView { tag, payload: value }),
    {
        AnyValue { type_tag: tag, value }
    }

    /// True exactly when the recorded identity is `tag`; the payload is
    /// not consulted.
    pub fn is_type(&self, tag: TypeTag) -> (r: bool)
        ensures
            r == (self@.tag == tag),
    {
        self.type_tag == tag
    }

    /// A shared reference to the payload, if `tag` matches the recorded
    /// identity; `None` otherwise.
    pub fn downcast_ref(&self, tag: TypeTag) -> (r: Option<&P>)
        ensures
            self@.tag == tag ==> r == Some(&self@.payload),
            self@.tag != tag ==> r is None,
    {
        if self.type_tag == tag {
            Some(&self.value)
        } else {
            None
        }
    }

    /// Dissolve the cell into its recorded tag and its payload. The cell
    /// is gone afterwards: tag and payload never exist apart inside one.
    pub fn into_parts(self) -> (r: (TypeTag, P))
        ensures
            r.0 == self@.tag,
            r.1 == self@.payload,
    {
        (self.type_tag, self.value)
    }

    /// An exclusive reference to the payload, under the same matching rule
    /// as [`AnyValue::downcast_ref`]. On a mismatch the cell is untouched;
    /// on a match the recorded tag is kept and only the payload can change
    /// through the returned reference.
    pub fn downcast_mut(&mut self, tag: TypeTag) -> (r: Option<&mut P>)
        ensures
            old(self)@.tag != tag ==> r is None && *final(self) == *old(self),
            old(self)@.tag == tag ==> r is Some && *r.unwrap() == old(self)@.payload
                && final(self)@ == (CellView { tag, payload: *final(r.unwrap()) }),
    {
        if self.type_tag == tag {
            Some(&mut self.value)
        } else {
            None
        }
    }
}

} // verus!
