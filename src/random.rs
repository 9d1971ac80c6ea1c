use rand::Rng;
use vstd::prelude::*;

verus! {

/// Relies on `rand::random::<bool>` (thread-local generator, `Standard` distribution):
/// a fair coin flip. Nothing is promised about which side comes up.
#[verifier::external_body]
pub(crate) fn coin_flip() -> (r: bool) {
    rand::random::<bool>()
}

/// Relies on `rand::Rng::gen_range` with an inclusive range on the thread-local
/// generator: the value lies in `low..=high`. The range is non-empty, which
/// `gen_range` asserts.
#[verifier::external_body]
pub(crate) fn random_between(low: usize, high: usize) -> (r: usize)
    requires
        low <= high,
    ensures
        low <= r <= high,
{
    rand::thread_rng().gen_range(low..=high)
}

} // verus!
