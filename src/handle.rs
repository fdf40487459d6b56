use intuicio_data::type_hash::TypeHash;
use vstd::prelude::*;

verus! {

#[verifier::external_type_specification]
#[verifier::external_body]
pub struct ExTypeHash(TypeHash);

/// The identity of a Rust type, used both for the type of a stored value and
/// for a relation category.
///
/// Its view is the type's hash. The outside `TypeHash` it was read from is
/// kept beside it, so that the arena can be addressed with it again.
#[derive(Clone, Copy, Debug, Hash, PartialOrd, Ord)]
pub struct TypeTag {
    pub(crate) hash: u64,
    pub(crate) raw: TypeHash,
}

impl View for TypeTag {
    type V = u64;

    closed spec fn view(&self) -> u64 {
        self.hash
    }
}

impl PartialEq for TypeTag {
    fn eq(&self, other: &TypeTag) -> (r: bool) {
        self.hash == other.hash
    }
}

impl Eq for TypeTag {}

impl vstd::std_specs::cmp::PartialEqSpecImpl for TypeTag {
    open spec fn obeys_eq_spec() -> bool {
        true
    }

    open spec fn eq_spec(&self, other: &TypeTag) -> bool {
        self@ == other@
    }
}

/// Relies on `TypeHash::of` and `TypeHash::hash`: reads the hash that the
/// crate computes from the type's name.
#[verifier::external_body]
fn type_tag_of<T>() -> (r: TypeTag) {
    let raw = TypeHash::of::<T>();
    TypeTag { hash: raw.hash(), raw }
}

/// Relies on `TypeHash::hash`: reads the hash out of an outside type hash.
#[verifier::external_body]
fn tag_of_raw(raw: TypeHash) -> (r: TypeTag) {
    TypeTag { hash: raw.hash(), raw }
}

impl TypeTag {
    /// The tag of an outside type hash.
    pub fn from_raw(raw: TypeHash) -> (r: TypeTag) {
        tag_of_raw(raw)
    }

    /// The tag of the Rust type `T`.
    pub fn of<T>() -> (r: TypeTag) {
        type_tag_of::<T>()
    }

    /// The hash that identifies the type.
    pub fn hash(&self) -> (r: u64)
        ensures
            r == self@,
    {
        self.hash
    }

    /// The outside type hash this tag was read from.
    pub fn raw(&self) -> (r: TypeHash) {
        self.raw
    }
}

/// A stored value's name: its slot in its type's arena (identifier and
/// generation, packed into one integer) and the hash of its type.
///
/// Two handles are equal when both fields are.
#[derive(Clone, Copy, Debug, PartialEq, Eq, Structural, Hash, PartialOrd, Ord)]
pub struct Handle {
    pub index: u64,
    pub type_hash: u64,
}

} // verus!
