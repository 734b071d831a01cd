//! Random numbers.

use rand::Rng;
use vstd::prelude::*;

verus! {

/// A source of random numbers, which remembers in ghost code what it was asked
/// for and what it gave: the bound and the result of each draw, in order.
pub struct Sampler {
    log: Ghost<Seq<(u64, u64)>>,
}

impl Sampler {
    /// The bounds and the results of the draws so far.
    pub closed spec fn log(self) -> Seq<(u64, u64)> {
        self.log@
    }

    /// A source that has given nothing yet.
    pub fn new() -> (r: Self)
        ensures
            r.log() == Seq::<(u64, u64)>::empty(),
    {
        Sampler { log: Ghost(Seq::empty()) }
    }
}

/// Draws a number below `bound` through `rand::Rng::gen_range` on
/// `rand::rngs::OsRng`, the generator of the operating system.
///
/// The range is half-open, so the number is below `bound`; an empty range is
/// left out. Which number it is rests on chance, and nothing is said of it but
/// that it is what the log holds for this call. The call panics where the
/// operating system gives no random bytes.
#[verifier::external_body]
pub(crate) fn sample_below(sampler: &mut Sampler, bound: u64) -> (r: u64)
    requires
        bound > 0,
    ensures
        r < bound,
        final(sampler).log() == old(sampler).log().push((bound, r)),
{
    rand::rngs::OsRng.gen_range(0..bound)
}

} // verus!
