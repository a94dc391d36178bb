//! The two places where chance enters: which classes are evicted before a
//! resumed extraction, and whether a node that ties with the current choice
//! replaces it.

use rand::seq::IteratorRandom;
use rand::Rng;
use vstd::prelude::*;

verus! {

/// The number of parts that a probability is counted in: a probability `p`
/// is given as `p` times this number, rounded.
pub const PROBABILITY_SCALE: u32 = 1_000_000;

/// `IteratorRandom::choose_multiple` on the positions `0..len`, with the
/// thread's random generator: `amount` positions picked at random. Which
/// positions come back, and in which order, is left to chance. The call
/// sets room for `amount` items aside before it looks at the positions, so
/// no more may be asked for than there are.
#[verifier::external_body]
pub(crate) fn sample_positions(len: usize, amount: usize) -> (picked: Vec<usize>)
    requires
        amount <= len,
    ensures
        picked@.len() == amount,
        forall|i: int| 0 <= i < picked@.len() ==> #[trigger] picked@[i] < len,
{
    (0..len).choose_multiple(&mut rand::thread_rng(), amount)
}

/// `Rng::gen_range` on `0..PROBABILITY_SCALE`, with the thread's random
/// generator: a number below the scale, left to chance.
#[verifier::external_body]
pub(crate) fn random_draw() -> (draw: u32)
    ensures
        draw < PROBABILITY_SCALE,
{
    rand::thread_rng().gen_range(0..PROBABILITY_SCALE)
}

/// `Rng::gen_range` on `0..len`, with the thread's random generator: a
/// position below `len`, left to chance. The range must not be empty.
#[verifier::external_body]
pub(crate) fn random_position(len: usize) -> (position: usize)
    requires
        len > 0,
    ensures
        position < len,
{
    rand::thread_rng().gen_range(0..len)
}

} // verus!
