//! Random choices, from `rand`.
use crate::space::Coord;
use rand::seq::SliceRandom;
use vstd::prelude::*;

verus! {

/// Relies on rand's `SliceRandom::choose` over the thread-local generator:
/// on a non-empty slice it returns one of its elements.
#[verifier::external_body]
pub(crate) fn choose_coord(options: &Vec<Coord>) -> (r: Coord)
    requires
        options@.len() > 0,
    ensures
        options@.contains(r),
{
    *options.choose(&mut rand::thread_rng()).unwrap()
}

} // verus!
