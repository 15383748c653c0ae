use vstd::prelude::*;

verus! {

/// The random number generator of `fastrand`, carried through the library as an
/// opaque value.
#[verifier::external_type_specification]
#[verifier::external_body]
pub struct ExRng(fastrand::Rng);

/// Calls `fastrand::Rng::new`, which seeds a generator from the thread-local
/// generator. Nothing is stated of the seed: it depends on the process.
#[verifier::external_body]
pub(crate) fn new_rng() -> fastrand::Rng {
    fastrand::Rng::new()
}

/// Calls `fastrand::Rng::u8` with the range `low..=high`. Its source draws a value
/// of the range, so the result lies between `low` and `high`. Every draw advances the
/// generator's 64-bit state by an odd constant, and a `u8` draw advances it at least
/// once and, as its rejection loop repeats with a chance below 2^-24, far fewer than
/// 2^64 times, so the generator's state changes. Which value comes out depends on that
/// state, which is opaque here, so nothing more is stated. The call panics on an empty
/// range, which `requires` leaves out.
#[verifier::external_body]
pub(crate) fn rng_u8_in(rng: &mut fastrand::Rng, low: u8, high: u8) -> (r: u8)
    requires
        low <= high,
    ensures
        low <= r <= high,
        *final(rng) != *old(rng),
{
    rng.u8(low..=high)
}

} // verus!
