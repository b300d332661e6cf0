//! Trusted access to the process random-number generator of the `rand`
//! crate.  Nothing is assumed about the values drawn beyond their range.

use vstd::prelude::*;

verus! {

#[verifier::external_type_specification]
#[verifier::external_body]
pub struct ExThreadRng(rand::rngs::ThreadRng);

/// Relies on `rand::thread_rng` for a handle to the thread-local generator.
#[verifier::external_body]
pub fn new_rng() -> rand::rngs::ThreadRng {
    rand::thread_rng()
}

/// Relies on `rand::Rng::gen_range`: a draw from `0..n`, defined only for a
/// non-empty range.
#[verifier::external_body]
pub(crate) fn gen_below(rng: &mut rand::rngs::ThreadRng, n: usize) -> (r: usize)
    requires
        n > 0,
    ensures
        r < n,
{
    rand::Rng::gen_range(rng, 0..n)
}

/// Relies on `rand::Rng::gen`: an arbitrary machine word.
#[verifier::external_body]
pub(crate) fn gen_usize(rng: &mut rand::rngs::ThreadRng) -> usize {
    rand::Rng::gen(rng)
}

/// An ASCII letter or digit, the alphabet of room keys.
pub open spec fn is_alphanumeric_char(c: char) -> bool {
    ('a' as int <= c as int <= 'z' as int) || ('A' as int <= c as int <= 'Z' as int) || (
    '0' as int <= c as int <= '9' as int)
}

/// Relies on `rand::distributions::DistString::sample_string` on
/// `Alphanumeric`: exactly `len` random ASCII alphanumeric characters.
#[verifier::external_body]
pub(crate) fn gen_alphanumeric(rng: &mut rand::rngs::ThreadRng, len: usize) -> (r: String)
    ensures
        r@.len() == len,
        forall|i: int| 0 <= i < r@.len() ==> is_alphanumeric_char(r@[i]),
{
    rand::distributions::DistString::sample_string(&rand::distributions::Alphanumeric, rng, len)
}

} // verus!
