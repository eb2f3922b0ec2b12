use vstd::prelude::*;
use ahash::{AHashSet, RandomState};

verus! {

/// `ahash::AHashSet`, a hash set of std with another hasher. Nothing is
/// known of what is inside but through the functions below.
#[verifier::external_type_specification]
#[verifier::external_body]
#[verifier::reject_recursive_types(T)]
#[verifier::reject_recursive_types(S)]
pub struct ExAHashSet<T, S>(AHashSet<T, S>);

/// `ahash::RandomState`, the hasher that such a set has where none is
/// named.
#[verifier::external_type_specification]
#[verifier::external_body]
pub struct ExRandomState(RandomState);

/// The offsets that a set holds.
pub uninterp spec fn offsets_held(set: AHashSet<usize>) -> Set<usize>;

/// A set that holds no offset.
///
/// This is `ahash::AHashSet::new`, which wraps an empty `HashSet` of std.
#[verifier::external_body]
pub(crate) fn offset_set_new() -> (set: AHashSet<usize>)
    ensures
        offsets_held(set) == Set::<usize>::empty(),
{
    AHashSet::new()
}

/// Puts `offset` into the set and says whether it was new to it.
///
/// This is `HashSet::insert` of std, which `ahash::AHashSet` hands on by
/// `DerefMut`: the set then holds the value, and the result is true exactly
/// when it did not hold it before.
#[verifier::external_body]
pub(crate) fn offset_set_insert(set: &mut AHashSet<usize>, offset: usize) -> (fresh: bool)
    ensures
        offsets_held(*final(set)) == offsets_held(*old(set)).insert(offset),
        fresh == !offsets_held(*old(set)).contains(offset),
{
    set.insert(offset)
}

} // verus!
