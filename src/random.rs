use vstd::prelude::*;

verus! {

/// Relies on rand's `thread_rng` generator and `Rng::gen_range`, which returns
/// a value in `[low, high)` and panics only where `low >= high`.
#[verifier::external_body]
pub(crate) fn draw_below(high: u64) -> (r: u64)
    requires
        high > 0,
    ensures
        r < high,
{
    rand::Rng::gen_range(&mut rand::thread_rng(), 0, high)
}

} // verus!
