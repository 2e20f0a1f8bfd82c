//! A sine-wave oscillator.

use vstd::prelude::*;

use crate::fixed::{scale_gain, scale_spec, udiv};
use crate::osc::{fill_bounds_ok, osc_inc_spec, phase_after};
use crate::{DT_MAX, FREQ_MAX, UNIT};

verus! {

/// Half of one cycle, in micro-cycles.
pub const HALF_CYCLE: i64 = 500_000;

/// A rational approximation of `sin(pi * p / HALF_CYCLE)` on `[0, HALF_CYCLE]`,
/// scaled by [`UNIT`]: exact at 0, a quarter cycle and a half cycle, and
/// within [`UNIT`] everywhere.
pub open spec fn sine_half_spec(p: int) -> int {
    16 * (p * (HALF_CYCLE - p)) * UNIT / (5 * HALF_CYCLE * HALF_CYCLE - 4 * (p * (HALF_CYCLE
        - p)))
}

/// The sine waveform at phase `p` micro-cycles, scaled by [`UNIT`]: the
/// first half cycle is positive, the second its mirror image below zero.
pub open spec fn sine_wave_spec(p: int) -> int {
    if p <= HALF_CYCLE {
        sine_half_spec(p)
    } else {
        -sine_half_spec(p - HALF_CYCLE)
    }
}

/// The half-cycle approximation stays within `[0, UNIT]`.
pub proof fn lemma_sine_half_bounds(p: int)
    requires
        0 <= p <= HALF_CYCLE,
    ensures
        0 <= sine_half_spec(p) <= UNIT,
{
    assert(0 <= p * (HALF_CYCLE - p) && 4 * (p * (HALF_CYCLE - p)) <= HALF_CYCLE
        * HALF_CYCLE) by (nonlinear_arith)
        requires
            0 <= p <= HALF_CYCLE,
    ;
    let q = p * (HALF_CYCLE - p);
    let num = 16 * q * UNIT;
    let den = 5 * HALF_CYCLE * HALF_CYCLE - 4 * q;
    assert(num <= UNIT * den) by (nonlinear_arith)
        requires
            num == 16 * q * UNIT,
            den == 5 * HALF_CYCLE * HALF_CYCLE - 4 * q,
            4 * q <= HALF_CYCLE * HALF_CYCLE,
            q >= 0,
    ;
    vstd::arithmetic::div_mod::lemma_div_is_ordered(num, UNIT * den, den);
    vstd::arithmetic::div_mod::lemma_div_by_multiple(UNIT as int, den);
    vstd::arithmetic::div_mod::lemma_div_pos_is_pos(num, den);
}

/// The sine waveform stays within `[-UNIT, UNIT]`.
pub proof fn lemma_sine_wave_bounds(p: int)
    requires
        0 <= p < UNIT,
    ensures
        -UNIT <= sine_wave_spec(p) <= UNIT,
{
    if p <= HALF_CYCLE {
        lemma_sine_half_bounds(p);
    } else {
        lemma_sine_half_bounds(p - HALF_CYCLE);
    }
}

fn sine_half(p: i64) -> (r: i64)
    requires
        0 <= p <= HALF_CYCLE,
    ensures
        r == sine_half_spec(p as int),
        0 <= r <= UNIT,
{
    proof {
        assert(0 <= p * (HALF_CYCLE - p) && 4 * (p * (HALF_CYCLE - p)) <= HALF_CYCLE
            * HALF_CYCLE) by (nonlinear_arith)
            requires
                0 <= p <= HALF_CYCLE,
        ;
        lemma_sine_half_bounds(p as int);
    }
    let q = p * (HALF_CYCLE - p);
    let num = 16 * q * UNIT;
    let den = 5 * HALF_CYCLE * HALF_CYCLE - 4 * q;
    udiv(num, den)
}

/// The sine waveform at phase `p` micro-cycles in `[0, UNIT)`.
pub fn sine_wave(p: i64) -> (r: i64)
    requires
        0 <= p < UNIT,
    ensures
        r == sine_wave_spec(p as int),
        -UNIT <= r <= UNIT,
{
    if p <= HALF_CYCLE {
        sine_half(p)
    } else {
        -sine_half(p - HALF_CYCLE)
    }
}

/// The stateless configuration of a sine-wave oscillator.
pub struct SineOscillator;

/// The per-note state of a sine-wave oscillator.
pub struct SineOscillatorState {
    /// A phase in micro-cycles, in `[0, UNIT)`.
    pub phase: i64,
}

impl SineOscillator {
    /// A fresh per-note state with phase 0.
    pub fn create_state(&self) -> (st: SineOscillatorState)
        ensures
            st.phase == 0,
    {
        SineOscillatorState { phase: 0 }
    }

    /// Add `amp`-scaled sine samples to the buffer, advancing the phase by
    /// `freq * delta_t` cycles per sample, wrapped into `[0, UNIT)`.
    pub fn fill_samples(
        &self,
        state: &mut SineOscillatorState,
        buffer: &mut Vec<i64>,
        delta_t: i64,
        freq: u64,
        amp: i64,
    )
        requires
            0 < delta_t <= DT_MAX,
            freq <= FREQ_MAX,
            0 <= amp <= UNIT,
            0 <= old(state).phase < UNIT,
            fill_bounds_ok(old(buffer)@),
        ensures
            final(buffer)@.len() == old(buffer)@.len(),
            forall|i: int|
                0 <= i < old(buffer)@.len() ==> final(buffer)@[i] == old(buffer)@[i] + scale_spec(
                    amp as int,
                    sine_wave_spec(
                        phase_after(
                            old(state).phase as int,
                            osc_inc_spec(freq as int, delta_t as int),
                            i as nat,
                        ),
                    ),
                ),
            final(state).phase == phase_after(
                old(state).phase as int,
                osc_inc_spec(freq as int, delta_t as int),
                old(buffer)@.len() as nat,
            ),
            0 <= final(state).phase < UNIT,
    {
        proof {
            assert(freq * delta_t <= 1_000_000_000_000_000_000) by (nonlinear_arith)
                requires
                    freq <= FREQ_MAX,
                    0 < delta_t <= DT_MAX,
            ;
            vstd::arithmetic::div_mod::lemma_div_is_ordered(
                freq * delta_t, 1_000_000_000_000_000_000, 1_000_000);
            vstd::arithmetic::div_mod::lemma_div_pos_is_pos(freq * delta_t, 1_000_000);
        }
        let inc = ((freq * (delta_t as u64)) / 1_000_000) as i64;
        let ghost p0 = old(state).phase as int;
        let ghost b0 = old(buffer)@;
        let n = buffer.len();
        let mut i: usize = 0;
        while i < n
            invariant
                0 <= amp <= UNIT,
                0 <= inc <= 1_000_000_000_000,
                inc == osc_inc_spec(freq as int, delta_t as int),
                n == b0.len(),
                buffer@.len() == n,
                i <= n,
                fill_bounds_ok(b0),
                state.phase as int == phase_after(p0, inc as int, i as nat),
                0 <= state.phase < UNIT,
                forall|j: int|
                    0 <= j < i ==> buffer@[j] == b0[j] + scale_spec(
                        amp as int,
                        sine_wave_spec(phase_after(p0, inc as int, j as nat)),
                    ),
                forall|j: int| i <= j < n ==> buffer@[j] == b0[j],
            decreases n - i,
        {
            let w = sine_wave(state.phase);
            let c = scale_gain(amp, w);
            proof {
                assert(buffer@[i as int] == b0[i as int]);
                assert(-crate::SAMPLE_MAX <= b0[i as int] <= crate::SAMPLE_MAX);
            }
            let v = buffer[i] + c;
            buffer[i] = v;
            state.phase = (((state.phase + inc) as u64) % 1_000_000) as i64;
            proof {
                assert(phase_after(p0, inc as int, (i + 1) as nat) == (phase_after(
                    p0,
                    inc as int,
                    i as nat,
                ) + inc) % (UNIT as int));
            }
            i += 1;
        }
    }
}

} // verus!
