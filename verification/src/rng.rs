//! The crate's only source of randomness, behind one trusted wrapper.

use vstd::prelude::*;
use rand::Rng;

verus! {

/// Relies on `rand::Rng::gen_range` over the range `0..n`, drawn from
/// `rand::thread_rng()`: it panics only on an empty range — excluded by
/// the precondition — and returns a uniformly distributed value of the
/// range.  Nothing more is assumed of the value: every caller is verified
/// for every result below `n`.
#[verifier::external_body]
pub(crate) fn random_below(n: usize) -> (r: usize)
    requires
        n >= 1,
    ensures
        r < n,
{
    rand::thread_rng().gen_range(0..n)
}

} // verus!
