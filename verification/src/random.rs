//! Draws from the thread-local random generator of `rand`, and the verified
//! helpers built on them.

use vstd::prelude::*;
use rand::rngs::ThreadRng;
use rand::Rng;
use rand::seq::SliceRandom;

verus! {

/// The thread-local generator of `rand`; its state is opaque here.
#[verifier::external_type_specification]
#[verifier::external_body]
pub struct ExThreadRng(rand::rngs::ThreadRng);

/// Calls `rand::thread_rng`. Nothing is claimed of the handle it returns.
#[verifier::external_body]
pub(crate) fn thread_rng() -> ThreadRng {
    rand::thread_rng()
}

/// Calls `Rng::gen_ratio`, a coin that comes up true with chance
/// `numerator / denominator`. Claimed, as its source shows: it never panics when
/// `0 < denominator` and `numerator <= denominator`, it is always true when the two
/// are equal and always false when `numerator` is 0. Which outcome comes otherwise
/// rests on chance and is not stated.
#[verifier::external_body]
pub(crate) fn gen_ratio(rng: &mut ThreadRng, numerator: u32, denominator: u32) -> (b: bool)
    requires
        0 < denominator,
        numerator <= denominator,
    ensures
        numerator == denominator ==> b,
        numerator == 0 ==> !b,
{
    rng.gen_ratio(numerator, denominator)
}

/// Calls `Rng::gen_range` on the half-open range `low..high`. Claimed, as its source
/// shows: it panics only on an empty range, and the value lies in the range. Which value
/// comes rests on chance and is not stated.
#[verifier::external_body]
pub(crate) fn gen_range(rng: &mut ThreadRng, low: usize, high: usize) -> (r: usize)
    requires
        low < high,
    ensures
        low <= r < high,
{
    rng.gen_range(low..high)
}

/// Calls `Rng::gen_range` on the closed range `low..=high`. Claimed, as its source
/// shows: it panics only when `low > high`, and the value lies in the range. Which value
/// comes rests on chance and is not stated.
#[verifier::external_body]
pub(crate) fn gen_range_inclusive(rng: &mut ThreadRng, low: usize, high: usize) -> (r: usize)
    requires
        low <= high,
    ensures
        low <= r <= high,
{
    rng.gen_range(low..=high)
}

/// Calls `SliceRandom::shuffle`, which only swaps entries. Claimed: the entries after
/// the call are those before, each as often; their order rests on chance and is not
/// stated.
#[verifier::external_body]
pub(crate) fn shuffle(rng: &mut ThreadRng, v: &mut Vec<usize>)
    ensures
        final(v)@.to_multiset() == old(v)@.to_multiset(),
{
    v.shuffle(rng);
}

/// `n` fair coins, one per switch.
pub(crate) fn random_bits(rng: &mut ThreadRng, n: usize) -> (bits: Vec<bool>)
    ensures
        bits@.len() == n,
{
    let mut bits: Vec<bool> = Vec::new();
    let mut i: usize = 0;
    while i < n
        invariant
            i <= n,
            bits@.len() == i,
        decreases n - i,
    {
        bits.push(gen_ratio(rng, 1, 2));
        i = i + 1;
    }
    bits
}

/// The numbers `0..n` in order.
pub(crate) fn indices_below(n: usize) -> (v: Vec<usize>)
    ensures
        v@.len() == n,
        forall|i: int| 0 <= i < n ==> v@[i] == i,
{
    let mut v: Vec<usize> = Vec::new();
    let mut i: usize = 0;
    while i < n
        invariant
            i <= n,
            v@.len() == i,
            forall|j: int| 0 <= j < i ==> v@[j] == j,
        decreases n - i,
    {
        v.push(i);
        i = i + 1;
    }
    v
}

/// The switches `0..n` in a shuffled order: each appears exactly once.
pub(crate) fn shuffled_indices(rng: &mut ThreadRng, n: usize) -> (v: Vec<usize>)
    ensures
        v@.len() == n,
        v@.no_duplicates(),
        forall|i: int| 0 <= i < n ==> (#[trigger] v@[i]) < n,
{
    let mut v = indices_below(n);
    let ghost before = v@;
    assert(before.no_duplicates());
    proof {
        before.lemma_multiset_has_no_duplicates();
        before.to_multiset_ensures();
    }
    shuffle(rng, &mut v);
    proof {
        v@.to_multiset_ensures();
        v@.lemma_multiset_has_no_duplicates_conv();
        assert forall|i: int| 0 <= i < n implies (#[trigger] v@[i]) < n by {
            assert(v@.contains(v@[i]));
            assert(v@.to_multiset().count(v@[i]) > 0);
            assert(before.contains(v@[i]));
        }
    }
    v
}

} // verus!
