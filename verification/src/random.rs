//! The random source of the solver and the shuffle it is used for.

use rand::rngs::ThreadRng;
use rand::seq::SliceRandom;
use vstd::prelude::*;

verus! {

/// `rand::rngs::ThreadRng`, the handle to the thread's random generator.
/// Nothing is known of what it holds.
#[verifier::external_type_specification]
#[verifier::external_body]
pub struct ExThreadRng(ThreadRng);

/// Calls `rand::thread_rng` for a handle to the thread's random generator.
/// Nothing is claimed of the handle. The call panics where the system has
/// no entropy to seed the generator with.
#[verifier::external_body]
pub(crate) fn thread_source() -> (rng: ThreadRng) {
    rand::thread_rng()
}

/// Calls `SliceRandom::shuffle` on the items. Trusted: that the items come
/// back rearranged, none lost, added or changed, which the source shows: the
/// shuffle is a run of swaps. Which arrangement comes back is open.
#[verifier::external_body]
pub(crate) fn shuffle<T>(items: &mut Vec<T>, rng: &mut ThreadRng)
    ensures
        final(items)@.to_multiset() == old(items)@.to_multiset(),
{
    items.shuffle(rng);
}

} // verus!
