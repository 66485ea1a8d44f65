use vstd::prelude::*;

verus! {

/// Relies on rand::Rng::gen_range over the range 0..n: it returns a
/// uniformly distributed value of that range.  n >= 1 keeps the range
/// nonempty, on which gen_range would panic.  Nothing more than
/// membership is assumed of the random value.
#[verifier::external_body]
pub fn rand_below(n: usize) -> (r: usize)
    requires
        n >= 1,
    ensures
        r < n,
{
    rand::Rng::gen_range(&mut rand::thread_rng(), 0..n)
}

/// Relies on rand::seq::SliceRandom::shuffle: an in-place Fisher-Yates
/// shuffle, which reorders the slice by swaps only, so the multiset of
/// items is exactly preserved.  Nothing is assumed about the order that
/// comes back.
#[verifier::external_body]
pub fn shuffle(v: &mut Vec<(usize, usize)>)
    ensures
        final(v)@.to_multiset() == old(v)@.to_multiset(),
{
    rand::seq::SliceRandom::shuffle(v.as_mut_slice(), &mut rand::thread_rng());
}

} // verus!
