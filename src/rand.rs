use vstd::prelude::*;

verus! {

/// Relies on rand::random_range: a value of the half-open range drawn from the
/// thread-local generator (it panics only on an empty range).
#[verifier::external_body]
fn draw_in_range(start: usize, end: usize) -> (r: usize)
    requires
        start < end,
    ensures
        start <= r < end,
{
    ::rand::random_range(start..end)
}

/// Relies on rand::random::<bool>: a fair coin from the thread-local generator.
#[verifier::external_body]
fn draw_coin() -> (r: bool) {
    ::rand::random::<bool>()
}

/// A uniformly drawn value of `start..end`, from the calling thread's own generator.
pub fn random_range(start: usize, end: usize) -> (r: usize)
    requires
        start < end,
    ensures
        start <= r < end,
{
    draw_in_range(start, end)
}

/// A fair coin flip, from the calling thread's own generator.
pub fn random() -> (r: bool) {
    draw_coin()
}

} // verus!
