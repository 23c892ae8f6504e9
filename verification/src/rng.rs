use vstd::prelude::*;
use rand::distributions::Bernoulli;
use rand::rngs::SmallRng;
use rand::{Rng, SeedableRng};

verus! {

/// The small, fast pseudo-random generator of `rand`; its state is opaque here.
#[verifier::external_type_specification]
#[verifier::external_body]
pub struct ExSmallRng(rand::rngs::SmallRng);

/// A coin that comes up true with a fixed probability (`rand::distributions::Bernoulli`).
#[verifier::external_type_specification]
#[verifier::external_body]
pub struct ExBernoulli(rand::distributions::Bernoulli);

/// Calls `SmallRng::seed_from_u64` (`rand::SeedableRng`): a generator seeded
/// from `seed`.  Nothing is claimed of the generator's state.
#[verifier::external_body]
pub(crate) fn seeded_rng(seed: u64) -> SmallRng {
    SmallRng::seed_from_u64(seed)
}

/// Calls `rng.gen_range(lo..=hi)` (`rand::Rng`), which draws from the closed
/// range `[lo, hi]` and panics on an empty one; the contract claims only that
/// the draw lies in the range.
#[verifier::external_body]
pub(crate) fn draw_range(rng: &mut SmallRng, lo: u64, hi: u64) -> (r: u64)
    requires
        lo <= hi,
    ensures
        lo <= r <= hi,
{
    rng.gen_range(lo..=hi)
}

/// Calls `rng.gen::<u64>()` (`rand::Rng`): any `u64` may come back.
#[verifier::external_body]
pub(crate) fn draw_u64(rng: &mut SmallRng) -> u64 {
    rng.gen::<u64>()
}

/// A coin of the simulated network: a `Bernoulli` distribution, marked when
/// it is the coin that never comes up true.
pub struct Coin {
    dist: Bernoulli,
    never: bool,
}

impl Coin {
    /// Whether this is the coin that never comes up true.
    pub closed spec fn is_never(&self) -> bool {
        self.never
    }

    /// A coin that comes up true with the probability of `dist`.
    pub fn with_distribution(dist: Bernoulli) -> (r: Coin)
        ensures
            !r.is_never(),
    {
        Coin { dist, never: false }
    }

    /// The coin that never comes up true.
    pub fn never() -> (r: Coin)
        ensures
            r.is_never(),
    {
        Coin { dist: never_coin(), never: true }
    }
}

/// Calls `rng.sample` (`rand::Rng`) with the coin's `Bernoulli` distribution:
/// a toss of the coin.  A coin made by `Coin::never` holds
/// `Bernoulli::from_ratio(0, 1)`, whose samples are always false, so its
/// toss never comes up true; of any other coin either outcome may come back.
#[verifier::external_body]
pub(crate) fn toss(rng: &mut SmallRng, coin: &Coin) -> (r: bool)
    ensures
        coin.is_never() ==> !r,
{
    rng.sample(coin.dist)
}

/// Calls `Bernoulli::from_ratio(0, 1)`: a coin that never comes up true.  The
/// ratio is valid, so the constructor cannot fail.
#[verifier::external_body]
pub(crate) fn never_coin() -> Bernoulli {
    Bernoulli::from_ratio(0, 1).unwrap()
}

} // verus!
