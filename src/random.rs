use vstd::prelude::*;

verus! {

#[verifier::external_type_specification]
#[verifier::external_body]
pub struct ExRng(fastrand::Rng);

/// Relies on fastrand::Rng::i32: a value drawn from the half-open range
/// `low..high`, which must not be empty.
#[verifier::external_body]
pub(crate) fn draw_i32(rng: &mut fastrand::Rng, low: i32, high: i32) -> (r: i32)
    requires
        low < high,
    ensures
        low <= r < high,
{
    rng.i32(low..high)
}

/// Relies on fastrand::Rng::u64: a value drawn from the half-open range
/// `low..high`, which must not be empty.
#[verifier::external_body]
pub(crate) fn draw_u64(rng: &mut fastrand::Rng, low: u64, high: u64) -> (r: u64)
    requires
        low < high,
    ensures
        low <= r < high,
{
    rng.u64(low..high)
}

} // verus!
