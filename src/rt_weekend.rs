//! Random integers drawn from the thread's own generator.
use vstd::prelude::*;

verus! {

/// Relies on rand::Rng::gen_range on rand::thread_rng with an inclusive
/// range: the value lies in `[min, max]`; the call panics on an empty range.
#[verifier::external_body]
pub(crate) fn random_int(min: u32, max: u32) -> (r: u32)
    requires
        min <= max,
    ensures
        min <= r <= max,
{
    rand::Rng::gen_range(&mut rand::thread_rng(), min..=max)
}

} // verus!
