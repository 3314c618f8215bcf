//! Trusted boundary to the random-number, distribution and naming crates.
//!
//! Everything stochastic the library does flows through the items in this
//! module.  Each wrapper makes one outside call chain and states only what
//! the called crate's source shows of every possible outcome.  Distribution
//! parameters cross this boundary as decimal numerals, since the verified
//! core does not traffic in floating point; `libm` fixes the float width the
//! samplers run at.

use vstd::prelude::*;

verus! {

#[verifier::external_type_specification]
#[verifier::external_body]
pub struct ExStdRng(rand::rngs::StdRng);

/// Relies on `rand::SeedableRng::seed_from_u64`: builds a pseudo-random
/// generator whose draws are governed by the given seed.
#[verifier::external_body]
pub(crate) fn seed_rng(seed: u64) -> rand::rngs::StdRng {
    <rand::rngs::StdRng as rand::SeedableRng>::seed_from_u64(seed)
}

/// Holds exactly when these numerals make acceptable Gaussian parameters:
/// both parse as double-width floats and the standard deviation is positive
/// and finite (the mean is unrestricted).
pub uninterp spec fn normal_params_ok(mean: Seq<char>, std_dev: Seq<char>) -> bool;

/// Relies on `str::parse` and `rand_distr::Normal::new`.  The sign test
/// lives here because float values cannot cross into verified code: a
/// non-positive standard deviation is a configuration error, even though
/// the sampling crate itself would accept any finite value.
/// `sample_normal_round` is governed by the same condition.
#[verifier::external_body]
pub(crate) fn normal_check(mean: &str, std_dev: &str) -> (r: bool)
    ensures
        r == normal_params_ok(mean@, std_dev@),
{
    match (mean.parse(), std_dev.parse()) {
        // copysign(m, m) is m; it selects the double-width sampler.
        (Ok(m), Ok(s)) => {
            let zero = "0".parse().unwrap();
            s > zero && rand_distr::Normal::new(libm::copysign(m, m), s).is_ok()
        },
        _ => false,
    }
}

/// Relies on `rand_distr::Normal::new` and `rand_distr::Distribution::sample`:
/// draws one Gaussian sample with the given parameters, rounds it to the
/// nearest integer (half away from zero, as `libm::round` does) and
/// saturates it into `usize`.  Nothing can be promised of the value drawn.
#[verifier::external_body]
pub(crate) fn sample_normal_round(mean: &str, std_dev: &str, rng: &mut rand::rngs::StdRng) -> usize
    requires
        normal_params_ok(mean@, std_dev@),
{
    let normal = rand_distr::Normal::new(mean.parse().unwrap(), std_dev.parse().unwrap())
        .expect("parameters were checked");
    let v = rand_distr::Distribution::sample(&normal, rng);
    libm::round(v) as usize
}

/// Relies on `rand::RngExt::random` and `uuid::Builder::from_random_bytes`:
/// draws sixteen random bytes from the generator and forms a version-4
/// identifier from them.  Nothing can be promised of the value drawn.
#[verifier::external_body]
pub(crate) fn fresh_id_from_rng(rng: &mut rand::rngs::StdRng) -> u128 {
    let bytes: [u8; 16] = rand::RngExt::random(rng);
    uuid::Builder::from_random_bytes(bytes).into_uuid().as_u128()
}

/// Relies on `uuid::Uuid::new_v4`: draws a fresh identifier from the
/// process-wide entropy source.  Nothing can be promised of the value drawn.
#[verifier::external_body]
pub(crate) fn fresh_id() -> u128 {
    uuid::Uuid::new_v4().as_u128()
}

/// Relies on `rand::seq::SliceRandom::shuffle`: permutes the elements of the
/// vector in place; which permutation comes out depends on the generator.
#[verifier::external_body]
pub(crate) fn shuffle_ids(v: &mut Vec<u128>, rng: &mut rand::rngs::StdRng)
    ensures
        final(v)@.to_multiset() == old(v)@.to_multiset(),
{
    rand::seq::SliceRandom::shuffle(v.as_mut_slice(), rng)
}

/// Relies on `petname::Petnames::default` and
/// `petname::Generator::generate_into`: writes a random name of the given
/// number of words into a fresh buffer, which stays empty only when the word
/// lists are exhausted.  Nothing can be promised of the name drawn.
#[verifier::external_body]
pub(crate) fn petname_pick(rng: &mut rand::rngs::StdRng, words: u8, separator: &str) -> String {
    let mut buf = String::new();
    petname::Generator::generate_into(&petname::Petnames::default(), &mut buf, rng, words, separator);
    buf
}

} // verus!
