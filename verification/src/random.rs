//! Deterministic generation of random semiring elements for property
//! testing, on top of a seeded random number generator.

use rand::rngs::StdRng;
use rand::{Rng, SeedableRng};
use vstd::prelude::*;

use crate::num::Num;
use crate::semiring::Weight;
use crate::weights::{MinmaxWeight, TropicalWeight};

verus! {

/// The exclusive bound of the small naturals the generator draws
/// from.
pub const GEN_BOUND: u32 = 5;

#[verifier::external_type_specification]
#[verifier::external_body]
pub struct ExStdRng(StdRng);

/// Relies on rand::SeedableRng::from_seed: a generator seeded from 32
/// bytes; one seed always drives the same sequence of draws.
#[verifier::external_body]
pub fn rng_from_seed(seed: [u8; 32]) -> StdRng {
    StdRng::from_seed(seed)
}

/// Relies on rand::Rng::gen_range: a sample from a non-empty
/// half-open range lies inside it, whatever the generator state.
#[verifier::external_body]
fn rng_below(rng: &mut StdRng, bound: u32) -> (r: u32)
    requires
        bound > 0,
    ensures
        r < bound,
{
    rng.gen_range(0..bound)
}

/// A weight type that embeds the small naturals.
pub trait RandomWeight: Weight {
    /// The image of a small natural in the carrier.
    spec fn from_u32_spec(n: u32) -> Self;

    fn from_u32(n: u32) -> (r: Self)
        ensures
            r == Self::from_u32_spec(n),
            r.mem(),
    ;
}

impl RandomWeight for TropicalWeight {
    open spec fn from_u32_spec(n: u32) -> Self {
        TropicalWeight { val: Some(Num::Finite(n as i64)) }
    }

    fn from_u32(n: u32) -> (r: Self) {
        TropicalWeight { val: Some(Num::Finite(n as i64)) }
    }
}

impl RandomWeight for MinmaxWeight {
    open spec fn from_u32_spec(n: u32) -> Self {
        MinmaxWeight { val: Some(Num::Finite(n as i64)) }
    }

    fn from_u32(n: u32) -> (r: Self) {
        MinmaxWeight { val: Some(Num::Finite(n as i64)) }
    }
}

/// A source of random weights: members drawn from the small naturals,
/// with `zero` mixed in on demand. Whatever the generator state, the
/// result is the image of a natural below the bound, or `zero` where
/// `allow_zero` admits it.
pub trait RandomWeightGenerator {
    fn genweight<T: RandomWeight>(&mut self, allow_zero: bool) -> (w: T)
        ensures
            w.mem(),
            (exists|k: u32| k < GEN_BOUND && w == T::from_u32_spec(k)) || (allow_zero && w
                == T::zero_spec()),
    ;
}

impl RandomWeightGenerator for StdRng {
    fn genweight<T: RandomWeight>(&mut self, allow_zero: bool) -> (w: T) {
        let n = rng_below(
            self,
            GEN_BOUND + if allow_zero {
                1
            } else {
                0
            },
        );
        if allow_zero && n == GEN_BOUND {
            proof {
                T::law_zero_one();
            }
            T::zero()
        } else {
            let w = T::from_u32(n);
            proof {
                assert(n < GEN_BOUND && w == T::from_u32_spec(n));
            }
            w
        }
    }
}

} // verus!
