//! Tags that tell one graph's module ids from another's, drawn from std's
//! randomly seeded hasher.

use std::collections::hash_map::RandomState;
use std::hash::BuildHasher;

use vstd::prelude::*;

verus! {

/// Calls `RandomState::new`. Std seeds the keys of the first state of each
/// thread at random and steps them for every further state, so two states
/// almost surely hash alike values differently. Nothing is stated of the result.
#[verifier::external_body]
fn fresh_hasher() -> RandomState {
    RandomState::new()
}

/// Calls `BuildHasher::hash_one` on `()` with `state`. The hash depends on the
/// state's random keys, so nothing is stated of the result.
#[verifier::external_body]
fn hash_unit(state: &RandomState) -> u64 {
    state.hash_one(())
}

/// A fresh graph tag: never `0`, the tag of ids no graph minted. Tags of two
/// graphs differ unless two independently keyed hashes collide.
pub(crate) fn fresh_tag() -> (tag: u64)
    ensures
        tag != 0,
{
    let state = fresh_hasher();
    let hash = hash_unit(&state);
    if hash == 0 {
        1
    } else {
        hash
    }
}

} // verus!
