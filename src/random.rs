use vstd::prelude::*;

verus! {

/// Relies on `rand::random::<u32>`: a number drawn from the thread-local
/// generator. Any `u32` may come back, so nothing is promised of it.
#[verifier::external_body]
pub(crate) fn random_u32() -> (r: u32) {
    rand::random::<u32>()
}

} // verus!
