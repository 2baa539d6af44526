use vstd::prelude::*;
use rand::Rng;

verus! {

/// Relies on `rand::Rng::gen_range` on `rand::thread_rng()`: for a non-empty
/// half-open range it returns a value inside it.
#[verifier::external_body]
pub(crate) fn random_in_range(lo: u32, hi: u32) -> (r: u32)
    requires
        lo < hi,
    ensures
        lo <= r < hi,
{
    rand::thread_rng().gen_range(lo..hi)
}

} // verus!
