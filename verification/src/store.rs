//! The interface a record type offers the storage engine: a stable
//! namespace naming its directory, a designated identifier field, and the
//! byte codec inherited from [`Bytes`].

use vstd::prelude::*;
use crate::bytes::Bytes;

verus! {

/// A record type the storage engine can persist. Implementations must keep
/// the namespace and identifier choice stable for the type's lifetime:
/// changing either orphans existing entries.
pub trait Store: Bytes {
    /// The identifier type of the record's designated key field.
    type Id: Bytes;

    /// The namespace: the directory name under which every instance of
    /// this type is stored.
    spec fn spec_name() -> Seq<char>;

    /// The identifier of an abstract record value.
    spec fn id_v(v: Self::V) -> <Self::Id as DeepView>::V;

    /// The abstract record value with its identifier replaced.
    spec fn with_id_v(v: Self::V, id: <Self::Id as DeepView>::V) -> Self::V;

    /// The namespace is a nonempty name without a path separator, so a
    /// storage key splits unambiguously into namespace and entry name.
    proof fn lemma_name_valid()
        ensures
            Self::spec_name().len() >= 1,
            forall|i: int| 0 <= i < Self::spec_name().len() ==> Self::spec_name()[i] != '/',
    ;

    /// Replacing the identifier yields a record that carries it.
    proof fn lemma_with_id(v: Self::V, id: <Self::Id as DeepView>::V)
        ensures
            Self::id_v(Self::with_id_v(v, id)) == id,
    ;

    fn name() -> (r: String)
        ensures
            r@ == Self::spec_name(),
    ;

    fn id(&self) -> (r: &Self::Id)
        ensures
            r.deep_view() == Self::id_v(self.deep_view()),
    ;

    fn with_id(&self, id: &Self::Id) -> (r: Self)
        ensures
            r.deep_view() == Self::with_id_v(self.deep_view(), id.deep_view()),
    ;
}

} // verus!
