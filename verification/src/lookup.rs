//! Numbers looked up by name, in the hash map of the `ahash` crate.
use vstd::prelude::*;

verus! {

/// The hash map of the `ahash` crate.
#[verifier::external_type_specification]
#[verifier::external_body]
#[verifier::reject_recursive_types(K)]
#[verifier::reject_recursive_types(V)]
#[verifier::reject_recursive_types(S)]
pub struct ExAHashMap<K, V, S>(ahash::AHashMap<K, V, S>);

/// The hasher of the `ahash` crate.
#[verifier::external_type_specification]
#[verifier::external_body]
pub struct ExAHashState(ahash::RandomState);

/// The numbers that a map gives to names.
pub uninterp spec fn entries(map: ahash::AHashMap<String, u32, ahash::RandomState>) -> Map<Seq<char>, u32>;

/// `ahash::AHashMap::new` gives a map without entries.
#[verifier::external_body]
pub(crate) fn new_lookup() -> (r: ahash::AHashMap<String, u32, ahash::RandomState>)
    ensures
        (entries(r) == Map::<Seq<char>, u32>::empty()),
{
    ahash::AHashMap::new()
}

/// `insert`, which `ahash::AHashMap` has from the map that it wraps, gives a name its number; an
/// earlier number of the same name is gone.
#[verifier::external_body]
pub(crate) fn insert_number(map: &mut ahash::AHashMap<String, u32, ahash::RandomState>, name: String, number: u32)
    ensures
        entries(*final(map)) == entries(*old(map)).insert(name@, number),
{
    map.insert(name, number);
}

/// `ahash::AHashMap::get` gives the number of a name, if it has one.
#[verifier::external_body]
pub(crate) fn number_of(map: &ahash::AHashMap<String, u32, ahash::RandomState>, name: &str) -> (r: Option<u32>)
    ensures
        r == if entries(*map).dom().contains(name@) {
            Some(entries(*map)[name@])
        } else {
            None
        },
{
    map.get(name).copied()
}

} // verus!
