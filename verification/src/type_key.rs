use crate::rule::BuildQuery;
use vstd::prelude::*;

verus! {

/// The sort of a value or relation whose static sort has been forgotten.
#[derive(Clone, Copy)]
pub struct Erased {
    _private: (),
}

/// The identity of a relation: two facts belong to the same relation exactly
/// when their keys hold the same number.
#[derive(Clone, Copy, Debug, PartialEq, Eq, Structural)]
pub struct TypeKey {
    id: u64,
}

impl View for TypeKey {
    type V = u64;

    closed spec fn view(&self) -> u64 {
        self.id
    }
}

impl TypeKey {
    /// The key of the relation numbered `id`.
    pub fn new(id: u64) -> (key: TypeKey)
        ensures
            key@ == id,
    {
        TypeKey { id }
    }

    /// The key of the relation `F`.
    pub fn of<F: BuildQuery>() -> (key: TypeKey)
        ensures
            key@ == F::KEY,
    {
        TypeKey { id: F::KEY }
    }

    /// The number this key stands for.
    pub fn type_id(&self) -> (id: u64)
        ensures
            id == self@,
    {
        self.id
    }
}

} // verus!
