//! The ambient random source. Nothing is promised of what it hands out: the
//! engine is proved for every value that may come back.

use rand::Rng;
use vstd::prelude::*;

verus! {

/// One fair coin toss, drawn with `rand::random::<bool>()` from the calling
/// thread's generator. The contract claims nothing of the outcome.
#[verifier::external_body]
pub(crate) fn coin_flip() -> (coin: bool) {
    rand::random::<bool>()
}

/// One machine word, drawn with `rand::thread_rng().gen::<usize>()`. The
/// contract claims nothing of the outcome.
#[verifier::external_body]
pub(crate) fn random_index() -> (draw: usize) {
    rand::thread_rng().gen::<usize>()
}

} // verus!
