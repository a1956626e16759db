use vstd::prelude::*;
use fastrand::Rng;
use crate::grid::GridPosition;

verus! {

/// fastrand's generator, carried by value; its state is opaque here.
#[verifier::external_type_specification]
#[verifier::external_body]
pub struct ExRng(fastrand::Rng);

/// Relies on fastrand::Rng::new: a generator seeded from the thread-local one.
pub assume_specification[ fastrand::Rng::new ]() -> fastrand::Rng;

/// Relies on fastrand::Rng::with_seed: a generator whose stream is fixed by `seed`.
pub assume_specification[ fastrand::Rng::with_seed ](seed: u64) -> fastrand::Rng;

/// Relies on fastrand::Rng::u64 over `0..n`: a value below `n`; it panics
/// only on an empty range.
#[verifier::external_body]
pub(crate) fn draw_below(rng: &mut Rng, n: u64) -> (r: u64)
    requires
        n > 0,
    ensures
        r < n,
{
    rng.u64(0..n)
}

/// Relies on fastrand::Rng::shuffle: it only swaps entries, so the cells
/// come back in some order, each as often as before.
#[verifier::external_body]
pub(crate) fn shuffle_cells(rng: &mut Rng, cells: &mut [GridPosition; 4])
    ensures
        final(cells)@.to_multiset() == old(cells)@.to_multiset(),
{
    rng.shuffle(cells)
}

} // verus!
