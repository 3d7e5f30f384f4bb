//! The crate's only window onto the `rand` crate: a handle to the
//! thread-local generator and a single uniformly drawn decimal digit.
//! Everything built on top of these two calls is verified.

use vstd::prelude::*;

verus! {

#[verifier::external_type_specification]
#[verifier::external_body]
pub struct ExThreadRng(rand::rngs::ThreadRng);

/// Relies on `rand::rng`: returns a handle to the thread-local generator.
/// (The call panics only if the operating system's randomness source fails
/// at the generator's first seeding.)
#[verifier::external_body]
pub(crate) fn fresh_rng() -> rand::rngs::ThreadRng {
    rand::rng()
}

/// Relies on `rand::RngExt::random_range` over `0..=9`: returns a value
/// drawn uniformly from that non-empty range, so the result is a decimal
/// digit. Nothing more can be said of a random value.
#[verifier::external_body]
pub(crate) fn random_digit(rng: &mut rand::rngs::ThreadRng) -> (d: u8)
    ensures
        d <= 9,
{
    rand::RngExt::random_range(rng, 0..=9)
}

} // verus!
