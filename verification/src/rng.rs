use vstd::prelude::*;

verus! {

/// Relies on `rand::random_range`: sampling the half-open integer range
/// `0..bound` yields a value of that range (the range must be non-empty, or
/// the call panics). Nothing beyond membership in the range is assumed of
/// any draw.
#[verifier::external_body]
pub(crate) fn sample_below(bound: usize) -> (r: usize)
    requires
        1 <= bound,
    ensures
        r < bound,
{
    rand::random_range(0..bound)
}

} // verus!
