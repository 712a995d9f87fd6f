//! The random number generator of the `rand` crate, and the few of its
//! operations that the table generation uses.

use vstd::prelude::*;

verus! {

/// The thread-local generator of `rand`.
#[verifier::external_type_specification]
#[verifier::external_body]
pub struct ExThreadRng(rand::rngs::ThreadRng);

/// `rand::Rng::random::<bool>`: a uniformly random bit; nothing is promised
/// of its value.
#[verifier::external_body]
pub(crate) fn random_bool(rng: &mut rand::rngs::ThreadRng) -> bool {
    rand::Rng::random::<bool>(rng)
}

/// `rand::Rng::random::<u8>`: a uniformly random byte; nothing is promised of
/// its value.
#[verifier::external_body]
pub(crate) fn random_byte(rng: &mut rand::rngs::ThreadRng) -> u8 {
    rand::Rng::random::<u8>(rng)
}

/// `rand::Rng::random_range(0..n)`: a value below `n`, which must be positive
/// (the call panics on an empty range).
#[verifier::external_body]
pub(crate) fn random_below(rng: &mut rand::rngs::ThreadRng, n: usize) -> (r: usize)
    requires
        n > 0,
    ensures
        r < n,
{
    rand::Rng::random_range(rng, 0..n)
}

/// `rand::seq::IndexedRandom::choose`: one of the entries, picked at random,
/// or nothing when there are none.
#[verifier::external_body]
pub(crate) fn choose_entry<T: Copy>(v: &[T], rng: &mut rand::rngs::ThreadRng) -> (r: Option<T>)
    ensures
        r is None <==> v@.len() == 0,
        r is Some ==> exists|i: int| 0 <= i < v@.len() && v@[i] == r->0,
{
    rand::seq::IndexedRandom::choose(v, rng).copied()
}

/// `rand::seq::SliceRandom::shuffle` on the elements of a vector: permutes
/// them in place; the elements stay the same, only their order changes.
#[verifier::external_body]
pub(crate) fn shuffle_vec<T>(v: &mut Vec<T>, rng: &mut rand::rngs::ThreadRng)
    ensures
        final(v)@.to_multiset() == old(v)@.to_multiset(),
{
    rand::seq::SliceRandom::shuffle(v.as_mut_slice(), rng)
}

/// `rand::seq::SliceRandom::shuffle`: permutes the array in place; the
/// entries stay the same, only their order changes.
#[verifier::external_body]
pub(crate) fn shuffle<T, const N: usize>(v: &mut [T; N], rng: &mut rand::rngs::ThreadRng)
    ensures
        final(v)@.to_multiset() == old(v)@.to_multiset(),
{
    rand::seq::SliceRandom::shuffle(&mut v[..], rng)
}

} // verus!
