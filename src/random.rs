//! Random draws, from the thread-local generator of `rand`.
use vstd::prelude::*;

verus! {

/// Relies on rand::Rng::gen_range on rand::thread_rng(): for the range
/// `0..n`, which is not empty, a value inside it.
#[verifier::external_body]
pub(crate) fn random_below(n: usize) -> (r: usize)
    requires
        n > 0,
    ensures
        r < n,
{
    rand::Rng::gen_range(&mut rand::thread_rng(), 0..n)
}

/// A random value in `lo..hi`.
pub(crate) fn random_between(lo: i16, hi: i16) -> (r: i16)
    requires
        lo < hi,
    ensures
        lo <= r < hi,
{
    let width: usize = (hi as i32 - lo as i32) as usize;
    let k: usize = random_below(width);
    (lo as i32 + k as i32) as i16
}

} // verus!
