//! A white-noise oscillator.

use vstd::prelude::*;

use rand::Rng;

use crate::osc::fill_bounds_ok;
use crate::UNIT;

verus! {

#[verifier::external_type_specification]
#[verifier::external_body]
pub struct ExThreadRng(rand::rngs::ThreadRng);

/// Relies on `rand::thread_rng`: a handle to the calling thread's random
/// number generator.
#[verifier::external_body]
fn fresh_rng() -> rand::rngs::ThreadRng {
    rand::thread_rng()
}

/// Relies on `rand::Rng::gen_range` over `-amp..=amp`: a uniformly
/// distributed value within the given range.  The range is non-empty since
/// `amp >= 0`, so the call cannot panic.
#[verifier::external_body]
fn noise_sample(rng: &mut rand::rngs::ThreadRng, amp: i64) -> (r: i64)
    requires
        amp >= 0,
    ensures
        -amp <= r <= amp,
{
    rng.gen_range(-amp..=amp)
}

/// The stateless configuration of a white-noise oscillator.
pub struct NoiseOscillator;

/// The per-note state of a white-noise oscillator: a random source owned by
/// the note, so that concurrent notes do not share random state.
pub struct NoiseOscillatorState {
    rng: rand::rngs::ThreadRng,
}

impl NoiseOscillator {
    /// A fresh per-note random source.
    pub fn create_state(&self) -> NoiseOscillatorState {
        NoiseOscillatorState { rng: fresh_rng() }
    }

    /// Add uniformly distributed samples in `[-amp, amp]` to the buffer.
    /// Frequency and time step play no role for noise.
    pub fn fill_samples(
        &self,
        state: &mut NoiseOscillatorState,
        buffer: &mut Vec<i64>,
        _delta_t: i64,
        _freq: u64,
        amp: i64,
    )
        requires
            0 <= amp <= UNIT,
            fill_bounds_ok(old(buffer)@),
        ensures
            final(buffer)@.len() == old(buffer)@.len(),
            forall|i: int|
                0 <= i < old(buffer)@.len() ==> old(buffer)@[i] - amp
                    <= #[trigger] final(buffer)@[i] <= old(buffer)@[i] + amp,
    {
        let ghost b0 = old(buffer)@;
        let n = buffer.len();
        let mut i: usize = 0;
        while i < n
            invariant
                0 <= amp <= UNIT,
                n == b0.len(),
                buffer@.len() == n,
                i <= n,
                fill_bounds_ok(b0),
                forall|j: int|
                    0 <= j < i ==> b0[j] - amp <= #[trigger] buffer@[j] <= b0[j] + amp,
                forall|j: int| i <= j < n ==> buffer@[j] == b0[j],
            decreases n - i,
        {
            let s = noise_sample(&mut state.rng, amp);
            proof {
                assert(buffer@[i as int] == b0[i as int]);
                assert(-crate::SAMPLE_MAX <= b0[i as int] <= crate::SAMPLE_MAX);
            }
            let v = buffer[i] + s;
            buffer[i] = v;
            i += 1;
        }
    }
}

} // verus!
