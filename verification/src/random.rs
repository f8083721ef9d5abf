//! The seeded random number generator.
//!
//! `ChaCha8Rng` is reproducible: a seed fixes the whole stream of draws, on every platform.
//! The names below therefore speak of a draw as a function of the generator's state, and a
//! contract can say which draw decided what.

use num_complex::Complex64;
use rand_chacha::ChaCha8Rng;
use vstd::prelude::*;

use crate::complex::{complex_one, complex_zero, real_less};

verus! {

/// The generator of the `rand_chacha` crate, opaque to the proofs.
#[verifier::external_type_specification]
#[verifier::external_body]
pub struct ExChaCha8Rng(rand_chacha::ChaCha8Rng);

/// The generator that a seed gives.
pub uninterp spec fn seeded(seed: u64) -> ChaCha8Rng;

/// The boolean that a generator draws next, and the generator after the draw.
pub uninterp spec fn drawn_bool(rng: ChaCha8Rng) -> (bool, ChaCha8Rng);

/// The real number between 0 and 1 that a generator draws next, and the generator after the
/// draw.
pub uninterp spec fn drawn_unit(rng: ChaCha8Rng) -> (Complex64, ChaCha8Rng);

/// `ChaCha8Rng::seed_from_u64`: the generator is a function of the seed.
#[verifier::external_body]
pub(crate) fn seed_rng(seed: u64) -> (r: ChaCha8Rng)
    ensures
        r == seeded(seed),
{
    rand::SeedableRng::seed_from_u64(seed)
}

/// `Rng::gen` for a boolean: draw and generator afterwards are a function of the generator
/// before.
#[verifier::external_body]
pub(crate) fn draw_bool(rng: &mut ChaCha8Rng) -> (r: bool)
    ensures
        (r, *final(rng)) == drawn_bool(*old(rng)),
{
    rand::Rng::gen(rng)
}

/// `Rng::gen` for a double precision number, carried as a complex number: draw and generator
/// afterwards are a function of the generator before. The draw lies between 0 and 1.
#[verifier::external_body]
pub(crate) fn draw_unit(rng: &mut ChaCha8Rng) -> (r: Complex64)
    ensures
        (r, *final(rng)) == drawn_unit(*old(rng)),
        !real_less(r, complex_zero()),
        !real_less(complex_one(), r),
{
    Complex64 { re: rand::Rng::gen(rng), im: Default::default() }
}

} // verus!
