use vstd::prelude::*;

use rand::Rng;

verus! {

/// Relies on rand's `Rng::gen_range` over `0..n`: the sample lies in the
/// half-open range, so the result is below `n`; the range must be non-empty.
#[verifier::external_body]
pub(crate) fn random_below(n: usize) -> (r: usize)
    requires
        n >= 1,
    ensures
        r < n,
{
    rand::thread_rng().gen_range(0..n)
}

} // verus!
