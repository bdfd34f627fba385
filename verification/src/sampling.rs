//! The stream of random values one generation call draws from.

use vstd::prelude::*;
use rand::Rng;

verus! {

/// Relies on `rand::thread_rng` and `rand::Rng::gen_range`: a uniformly
/// drawn value below the given bound.
#[verifier::external_body]
fn sample_below(bound: usize) -> (r: usize)
    requires
        bound >= 1,
    ensures
        r < bound,
{
    rand::thread_rng().gen_range(0..bound)
}

/// A stream of `n` fresh random values.
pub exec fn random_draws(n: usize) -> (v: Vec<usize>)
    ensures
        v@.len() == n as nat,
{
    let mut v: Vec<usize> = Vec::new();
    let mut i: usize = 0;
    while i < n
        invariant
            0 <= i <= n,
            v@.len() == i as nat,
        decreases n - i,
    {
        v.push(sample_below(usize::MAX));
        i = i + 1;
    }
    v
}

} // verus!
