//! The random draws that level generation makes, through the `rand` crate.
use vstd::prelude::*;
use rand::rngs::StdRng;
use rand::{Rng, SeedableRng};

verus! {

/// `rand`'s standard generator, carried through level generation as an
/// opaque value.
#[verifier::external_type_specification]
#[verifier::external_body]
pub struct ExStdRng(StdRng);

/// Relies on `rand::Rng::gen_range` over an inclusive `i32` range: it panics
/// only on an empty range and otherwise returns a value inside it.
#[verifier::external_body]
pub(crate) fn draw_i32(rng: &mut StdRng, lo: i32, hi: i32) -> (r: i32)
    requires
        lo <= hi,
    ensures
        lo <= r <= hi,
{
    rng.gen_range(lo..=hi)
}

/// Relies on `rand::Rng::gen_range` over an inclusive `usize` range: it
/// panics only on an empty range and otherwise returns a value inside it.
#[verifier::external_body]
pub(crate) fn draw_usize(rng: &mut StdRng, lo: usize, hi: usize) -> (r: usize)
    requires
        lo <= hi,
    ensures
        lo <= r <= hi,
{
    rng.gen_range(lo..=hi)
}

/// Relies on `rand::Rng::gen_ratio(1, 2)`: a fair coin. Either outcome may
/// come back.
#[verifier::external_body]
pub(crate) fn flip_coin(rng: &mut StdRng) -> (r: bool) {
    rng.gen_ratio(1, 2)
}

/// Relies on `rand::SeedableRng::from_entropy`: a generator seeded from the
/// operating system's entropy source (it panics only when that source
/// fails). Nothing is promised of the seed.
#[verifier::external_body]
pub(crate) fn fresh_rng() -> (r: StdRng) {
    StdRng::from_entropy()
}

} // verus!
