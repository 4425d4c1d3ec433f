//! Random positions.
use rand::Rng;
use vstd::prelude::*;

verus! {

/// The generator `rand::rngs::StdRng`. Nothing is known of its state.
#[verifier::external_type_specification]
#[verifier::external_body]
pub struct ExStdRng(rand::rngs::StdRng);

/// Calls `rand::Rng::random_range` on a half-open range of positions: the position
/// drawn lies in the range, and which one it is remains open. The call panics on an
/// empty range, so the range must not be empty.
#[verifier::external_body]
pub(crate) fn draw_position(rng: &mut rand::rngs::StdRng, from: usize, to: usize) -> (drawn: usize)
    requires
        from < to,
    ensures
        from <= drawn < to,
{
    rng.random_range(from..to)
}

} // verus!
