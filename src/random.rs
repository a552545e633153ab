use nanorand::Rng;
use vstd::prelude::*;

verus! {

/// Relies on nanorand::tls_rng and Rng::generate: a draw from the thread-local
/// WyRand generator. Any value may come back, so nothing is promised of it.
#[verifier::external_body]
pub(crate) fn random_u64() -> (r: u64) {
    nanorand::tls_rng().generate::<u64>()
}

} // verus!
