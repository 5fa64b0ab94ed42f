//! The random order in which the walls of a maze are taken, from the `rand`
//! crate.
//!
//! Nothing here is proved. Each item stands for one function of `rand`.

use vstd::prelude::*;
use rand::rngs::ThreadRng;
use rand::seq::SliceRandom;
use crate::walls::WallIndex;

verus! {

/// `rand::rngs::ThreadRng`, the random number generator of a thread. It is
/// handed on and never looked into.
#[verifier::external_type_specification]
#[verifier::external_body]
pub struct ExThreadRng(ThreadRng);

/// `rand::thread_rng`: the generator of the calling thread, seeded by the
/// system. Nothing is claimed of it. It panics where the system gives no seed.
pub assume_specification[ rand::thread_rng ]() -> (generator: ThreadRng)
;

/// `SliceRandom::shuffle` on the walls: they are swapped among themselves in
/// place, so the same walls are there afterwards, each as often as before.
/// Which order comes out is left open.
#[verifier::external_body]
pub(crate) fn shuffle_walls(walls: &mut Vec<WallIndex>, generator: &mut ThreadRng)
    ensures
        final(walls)@.to_multiset() == old(walls)@.to_multiset(),
{
    walls.shuffle(generator);
}

} // verus!
