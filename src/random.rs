//! The random sources the collective operations draw from: `fastrand` for
//! uniform draws and shuffles, `rand`'s `WeightedIndex` for weighted draws.
use vstd::prelude::*;

verus! {

#[verifier::external_type_specification]
#[verifier::external_body]
pub struct ExRng(fastrand::Rng);

/// A weighted distribution over item positions: `rand`'s `WeightedIndex`,
/// whose bounds Verus cannot declare, held opaque.
#[verifier::external_body]
pub struct WeightedPicker {
    dist: rand::distributions::WeightedIndex<u64>,
}

#[verifier::external_type_specification]
#[verifier::external_body]
pub struct ExWeightedError(rand::distributions::WeightedError);

/// A random generator seeded from the thread-local one.
pub assume_specification[ fastrand::Rng::new ]() -> fastrand::Rng;

/// Relies on `fastrand::Rng::usize`: a value of the half-open range `0..n`,
/// which must not be empty.
#[verifier::external_body]
pub(crate) fn random_below(rng: &fastrand::Rng, n: usize) -> (r: usize)
    requires
        n > 0,
    ensures
        r < n,
{
    rng.usize(0..n)
}

/// Relies on `fastrand::Rng::i64`: a value of the half-open range `lo..hi`,
/// which must not be empty.
#[verifier::external_body]
pub(crate) fn random_i64(rng: &fastrand::Rng, lo: i64, hi: i64) -> (r: i64)
    requires
        lo < hi,
    ensures
        lo <= r < hi,
{
    rng.i64(lo..hi)
}

/// Relies on `fastrand::Rng::u8`: any byte.
#[verifier::external_body]
pub(crate) fn random_u8(rng: &fastrand::Rng) -> u8 {
    rng.u8(..)
}

/// Relies on `fastrand::Rng::shuffle`, a sequence of swaps: the same items
/// in some order.
#[verifier::external_body]
pub(crate) fn shuffle<T>(rng: &fastrand::Rng, v: &mut Vec<T>)
    ensures
        final(v)@.to_multiset() == old(v)@.to_multiset(),
        final(v)@.len() == old(v)@.len(),
{
    rng.shuffle(v)
}

/// The weights a weighted distribution was built from.
pub uninterp spec fn weights_of(d: WeightedPicker) -> Seq<u64>;

/// The sum of a sequence of weights.
pub open spec fn total_weight(w: Seq<u64>) -> int
    decreases w.len(),
{
    if w.len() == 0 {
        0
    } else {
        total_weight(w.drop_last()) + w.last()
    }
}

/// Relies on `WeightedIndex::new`: for unsigned weights it fails exactly when
/// there are none or all are zero; the running sum must fit in `u64`.
#[verifier::external_body]
pub(crate) fn weighted_index(
    w: &Vec<u64>,
) -> (r: Result<WeightedPicker, rand::distributions::WeightedError>)
    requires
        total_weight(w@) <= u64::MAX,
    ensures
        r is Ok <==> (w@.len() > 0 && total_weight(w@) > 0),
        r matches Ok(d) ==> weights_of(d) == w@,
{
    rand::distributions::WeightedIndex::new(w.iter()).map(|dist| WeightedPicker { dist })
}

/// Relies on `WeightedIndex::sample`: the index of an item whose weight is
/// not zero.
#[verifier::external_body]
pub(crate) fn weighted_sample(d: &WeightedPicker) -> (r: usize)
    ensures
        r < weights_of(*d).len(),
        weights_of(*d)[r as int] > 0,
{
    rand::distributions::Distribution::sample(&d.dist, &mut rand::thread_rng())
}

} // verus!
