use vstd::prelude::*;

verus! {

/// An opaque runtime identity tag for a type.
///
/// A tag uniquely identifies one type for the lifetime of the process:
/// the application assigns one process-stable identifier per concrete or
/// capability type it stores, and equality of tags stands for equality of
/// the types they name. Tags are compared in O(1) and never inspected
/// beyond equality.
#[derive(Clone, Copy, PartialEq, Eq, Structural, Hash, Debug)]
pub struct TypeTag {
    /// The process-stable identifier this tag carries.
    pub id: u64,
}

impl TypeTag {
    /// The tag with identifier `id`.
    pub fn new(id: u64) -> (t: TypeTag)
        ensures
            t == (TypeTag { id }),
    {
        TypeTag { id }
    }
}

} // verus!
