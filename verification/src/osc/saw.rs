//! A sawtooth oscillator.

use vstd::prelude::*;

use crate::fixed::{scale_gain, scale_spec};
use crate::osc::{fill_bounds_ok, osc_inc_spec, phase_after};
use crate::{DT_MAX, FREQ_MAX, UNIT};

verus! {

/// The sawtooth waveform at phase `p` micro-cycles: a straight ramp from
/// `-UNIT` at phase 0 up to just under [`UNIT`] at the end of the cycle.
pub open spec fn saw_wave_spec(p: int) -> int {
    2 * p - UNIT
}

/// The stateless configuration of a sawtooth oscillator.
pub struct SawOscillator;

/// The per-note state of a sawtooth oscillator.
pub struct SawOscillatorState {
    /// A phase in micro-cycles, in `[0, UNIT)`.
    pub phase: i64,
}

impl SawOscillator {
    /// A fresh per-note state with phase 0.
    pub fn create_state(&self) -> (st: SawOscillatorState)
        ensures
            st.phase == 0,
    {
        SawOscillatorState { phase: 0 }
    }

    /// Add `amp`-scaled sawtooth samples to the buffer, advancing the phase
    /// by `freq * delta_t` cycles per sample, wrapped into `[0, UNIT)`.
    pub fn fill_samples(
        &self,
        state: &mut SawOscillatorState,
        buffer: &mut Vec<i64>,
        delta_t: i64,
        freq: u64,
        amp: i64,
    )
        requires
            0 < delta_t <= DT_MAX,
            freq <= FREQ_MAX,
            0 <= amp <= UNIT,
            0 <= old(state).phase < UNIT,
            fill_bounds_ok(old(buffer)@),
        ensures
            final(buffer)@.len() == old(buffer)@.len(),
            forall|i: int|
                0 <= i < old(buffer)@.len() ==> final(buffer)@[i] == old(buffer)@[i] + scale_spec(
                    amp as int,
                    saw_wave_spec(
                        phase_after(
                            old(state).phase as int,
                            osc_inc_spec(freq as int, delta_t as int),
                            i as nat,
                        ),
                    ),
                ),
            final(state).phase == phase_after(
                old(state).phase as int,
                osc_inc_spec(freq as int, delta_t as int),
                old(buffer)@.len() as nat,
            ),
            0 <= final(state).phase < UNIT,
    {
        proof {
            assert(freq * delta_t <= 1_000_000_000_000_000_000) by (nonlinear_arith)
                requires
                    freq <= FREQ_MAX,
                    0 < delta_t <= DT_MAX,
            ;
            vstd::arithmetic::div_mod::lemma_div_is_ordered(
                freq * delta_t, 1_000_000_000_000_000_000, 1_000_000);
            vstd::arithmetic::div_mod::lemma_div_pos_is_pos(freq * delta_t, 1_000_000);
        }
        let inc = ((freq * (delta_t as u64)) / 1_000_000) as i64;
        let ghost p0 = old(state).phase as int;
        let ghost b0 = old(buffer)@;
        let n = buffer.len();
        let mut i: usize = 0;
        while i < n
            invariant
                0 <= amp <= UNIT,
                0 <= inc <= 1_000_000_000_000,
                inc == osc_inc_spec(freq as int, delta_t as int),
                n == b0.len(),
                buffer@.len() == n,
                i <= n,
                fill_bounds_ok(b0),
                state.phase as int == phase_after(p0, inc as int, i as nat),
                0 <= state.phase < UNIT,
                forall|j: int|
                    0 <= j < i ==> buffer@[j] == b0[j] + scale_spec(
                        amp as int,
                        saw_wave_spec(phase_after(p0, inc as int, j as nat)),
                    ),
                forall|j: int| i <= j < n ==> buffer@[j] == b0[j],
            decreases n - i,
        {
            let w = 2 * state.phase - UNIT;
            let c = scale_gain(amp, w);
            proof {
                assert(buffer@[i as int] == b0[i as int]);
                assert(-crate::SAMPLE_MAX <= b0[i as int] <= crate::SAMPLE_MAX);
            }
            let v = buffer[i] + c;
            buffer[i] = v;
            state.phase = (((state.phase + inc) as u64) % 1_000_000) as i64;
            proof {
                assert(phase_after(p0, inc as int, (i + 1) as nat) == (phase_after(
                    p0,
                    inc as int,
                    i as nat,
                ) + inc) % (UNIT as int));
            }
            i += 1;
        }
    }
}

} // verus!
