//! What all readers have in common.
use vstd::prelude::*;

verus! {

/// The version of the package.
pub fn package_version() -> (r: String)
    ensures
        r@ == "1.0.0"@,
{
    "1.0.0".to_owned()
}

} // verus!
