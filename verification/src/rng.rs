//! The primary random stream.
//!
//! The generator is PCG-64 (`rand_pcg::Pcg64`), seeded from a `u64`.  Its
//! 256-bit state is opaque to the verifier, so `GenRng` carries a ghost
//! image of it: `state` names the mathematical value of the generator
//! state, and `draws` counts the outputs taken.  The stream is a pure
//! function of the seed, so each trusted operation pins its result and the
//! successor state through the uninterpreted names below; everything
//! downstream — mapped draws, sampled cells, whole chunks — is then a
//! stated function of the seed.  The ghost fields are written only by the
//! functions of this module, which keep them aligned with the real
//! generator.

use vstd::prelude::*;
use rand::Rng;
use rand::SeedableRng;

verus! {

#[verifier::external_type_specification]
#[verifier::external_body]
pub struct ExPcg64(rand_pcg::Pcg64);

/// A PCG-64 stream with a ghost image of its state and a count of the
/// outputs taken from it.
pub struct GenRng {
    pub inner: rand_pcg::Pcg64,
    pub state: Ghost<int>,
    pub draws: Ghost<nat>,
}

/// `2^53`: one uniform draw carries 53 random bits, so `draw_mapped` accepts
/// spans `max - min + 1` up to this many values.
pub const MAX_SPAN: i128 = 0x20_0000_0000_0000;

/// `2^53` again, as the divisor of the 53-bit uniform draw.
pub const DRAW_ONE: u128 = 0x20_0000_0000_0000;

/// The generator state that rand's `SeedableRng::seed_from_u64` builds for
/// a seed.
pub uninterp spec fn pcg_state_of_seed(seed: u64) -> int;

/// The successor state after one `next_u64` step of the generator.
pub uninterp spec fn pcg_step(state: int) -> int;

/// The 64-bit output of one `next_u64` step taken at `state`.
pub uninterp spec fn pcg_out(state: int) -> u64;

/// The result of rand's `gen_range(0, n)` taken at `state`.
pub uninterp spec fn pcg_range(state: int, n: int) -> int;

/// The generator state after `gen_range(0, n)` taken at `state` (the
/// rejection scheme may step the generator several times).
pub uninterp spec fn pcg_range_step(state: int, n: int) -> int;

/// Relies on `rand_pcg::Pcg64` and rand's `SeedableRng::seed_from_u64`:
/// construction is deterministic, so nothing is stated here; the ghost
/// state is set by `reseed`.
#[verifier::external_body]
fn pcg_from_seed(seed: u64) -> (r: rand_pcg::Pcg64) {
    rand_pcg::Pcg64::seed_from_u64(seed)
}

/// Relies on rand's `SeedableRng::seed_from_u64` for `rand_pcg::Pcg64`:
/// seeding is a pure function of the seed, named `pcg_state_of_seed`.
#[verifier::external_body]
fn reseed(rng: &mut GenRng, seed: u64)
    ensures
        final(rng).state@ == pcg_state_of_seed(seed),
        final(rng).draws@ == 0,
{
    rng.inner = rand_pcg::Pcg64::seed_from_u64(seed);
}

/// Relies on rand's `Rng::gen::<u64>` on `rand_pcg::Pcg64`: exactly one
/// `next_u64` step, whose output and successor state are pure functions of
/// the generator state, named `pcg_out` and `pcg_step`.
#[verifier::external_body]
fn pcg_next(rng: &mut GenRng) -> (r: u64)
    ensures
        r == pcg_out(old(rng).state@),
        final(rng).state@ == pcg_step(old(rng).state@),
        final(rng).draws@ == old(rng).draws@,
{
    rng.inner.gen::<u64>()
}

/// Relies on rand's `Rng::gen_range` (the bias-free rejection scheme): the
/// result lies in `[0, n)` and, like the successor state, is a pure
/// function of the generator state and `n`, named `pcg_range` and
/// `pcg_range_step`.  The rejection may step the generator several times,
/// so this draw is only ever taken from a sub-generator, where the output
/// count does not matter.
#[verifier::external_body]
pub fn draw_range(rng: &mut GenRng, n: usize) -> (r: usize)
    requires
        1 <= n,
    ensures
        r < n,
        r as int == pcg_range(old(rng).state@, n as int),
        final(rng).state@ == pcg_range_step(old(rng).state@, n as int),
        final(rng).draws@ == old(rng).draws@,
{
    rng.inner.gen_range(0, n)
}

/// Seeds a fresh stream; its state is the seed's and its draw counter
/// starts at zero.
pub fn rng_from_seed(seed: u64) -> (r: GenRng)
    ensures
        r.state@ == pcg_state_of_seed(seed),
        r.draws@ == 0,
{
    let mut r = GenRng { inner: pcg_from_seed(seed), state: Ghost(0int), draws: Ghost(0nat) };
    reseed(&mut r, seed);
    r
}

/// Takes exactly one 64-bit output of the stream and counts it.
pub fn next_raw(rng: &mut GenRng) -> (r: u64)
    ensures
        r == pcg_out(old(rng).state@),
        final(rng).state@ == pcg_step(old(rng).state@),
        final(rng).draws@ == old(rng).draws@ + 1,
{
    let r = pcg_next(rng);
    proof {
        rng.draws@ = rng.draws@ + 1;
    }
    r
}

/// Where the 53-bit uniform draw of the output `raw` lands in the
/// inclusive range `[min, max]`: `min + floor((max - min + 1) * u)` with
/// `u = (raw >> 11) / 2^53` in `[0, 1)`.
pub open spec fn spec_mapped(raw: u64, min: int, max: int) -> int {
    min + ((max - min + 1) * ((raw >> 11) as int)) / (DRAW_ONE as int)
}

/// For spans up to `2^53` the mapped draw lies in `[min, max]`.
pub proof fn lemma_mapped_in_range(raw: u64, min: int, max: int)
    requires
        min <= max,
        max - min < MAX_SPAN,
    ensures
        min <= spec_mapped(raw, min, max) <= max,
{
    let span = max - min + 1;
    let bits = (raw >> 11) as int;
    assert(raw >> 11 < 0x20_0000_0000_0000u64) by (bit_vector);
    assert(0 <= span * bits < span * (DRAW_ONE as int)) by (nonlinear_arith)
        requires
            0 <= bits < (DRAW_ONE as int),
            1 <= span,
    ;
    assert(0 <= (span * bits) / (DRAW_ONE as int) < span) by (nonlinear_arith)
        requires
            0 <= span * bits < span * (DRAW_ONE as int),
            (DRAW_ONE as int) > 0,
    ;
}

/// Consumes one primary output and maps its 53-bit uniform draw onto
/// `[min, max]`, in exact integer arithmetic: the result is exactly
/// `spec_mapped` of the drawn output.
pub fn draw_mapped(rng: &mut GenRng, min: i128, max: i128) -> (r: i128)
    requires
        min <= max,
        max - min < MAX_SPAN,
    ensures
        min <= r <= max,
        r == spec_mapped(pcg_out(old(rng).state@), min as int, max as int),
        final(rng).state@ == pcg_step(old(rng).state@),
        final(rng).draws@ == old(rng).draws@ + 1,
{
    let raw = next_raw(rng);
    let bits: u128 = (raw >> 11) as u128;
    let span: u128 = (max - min + 1) as u128;
    proof {
        lemma_mapped_in_range(raw, min as int, max as int);
        assert(raw >> 11 < 0x20_0000_0000_0000u64) by (bit_vector);
        assert((span as int) * (bits as int) < 0x20_0000_0000_0000 * 0x20_0000_0000_0000)
            by (nonlinear_arith)
            requires
                0 <= (bits as int) < 0x20_0000_0000_0000,
                0 <= (span as int) <= 0x20_0000_0000_0000,
        ;
    }
    let offset: u128 = (span * bits) / DRAW_ONE;
    proof {
        assert(offset as int == ((max - min + 1) * ((raw >> 11) as int)) / (DRAW_ONE as int));
    }
    let r: i128 = min + (offset as i128);
    r
}

} // verus!
