//! The one window onto the random number generator.
use vstd::prelude::*;

verus! {

use crate::fixed::ONE;

/// Relies on rand::random: a fresh draw from the thread-local generator,
/// uniform over all 32-bit words; nothing can be promised of the value.
/// The generator's own initialization and reseeding can panic if the
/// operating system's randomness source fails — an environmental failure
/// on no particular input, like allocation failure.
#[verifier::external_body]
pub(crate) fn random_u32() -> u32 {
    rand::random::<u32>()
}

/// A random fixed-point value in `[0, 1)`.
pub(crate) fn random_unit() -> (r: i64)
    ensures
        0 <= r < ONE,
{
    let u = random_u32();
    (u % 65536) as i64
}

} // verus!
