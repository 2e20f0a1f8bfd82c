//! A harmonic-stack oscillator: layered sine partials at integer multiples
//! of the base frequency.

use vstd::prelude::*;

use crate::fixed::{lemma_scale_bound, scale_spec, udiv};
use crate::osc::sine::{
    lemma_sine_wave_bounds, sine_wave_spec, SineOscillator, SineOscillatorState,
};
use crate::osc::{fill_bounds_ok, lemma_phase_after_range, osc_inc_spec, phase_after};
use crate::{DT_MAX, FREQ_MAX, UNIT};

verus! {

/// Largest number of harmonics in a stack.
pub const MAX_HARMONICS: usize = 1000;

struct TableEntry {
    osc: SineOscillator,
    amplitude: i64,
}

/// The stateless configuration of a harmonic stack: one relative amplitude
/// per partial, the `k`-th partial (1-based) sounding at `k` times the base
/// frequency with amplitude `entry / k`.
pub struct HarmonicOscillator {
    table: Vec<TableEntry>,
}

/// The per-note state of a harmonic stack: one sine phase per partial.
pub struct HarmonicOscillatorState {
    states: Vec<SineOscillatorState>,
}

impl HarmonicOscillatorState {
    /// The phase of each partial, in micro-cycles.
    pub closed spec fn phases(self) -> Seq<int> {
        self.states@.map(|i: int, s: SineOscillatorState| s.phase as int)
    }
}

/// The amplitude of the `k`-th partial (0-based): the entry's relative
/// amplitude scaled by the note's, divided by the 1-based index.
pub open spec fn entry_amp_spec(a: int, amp: int, k: int) -> int {
    a * amp / (UNIT as int) / (k + 1)
}

/// One sample of the `k`-th partial (0-based).
pub open spec fn harm_term(
    amps: Seq<int>,
    phases: Seq<int>,
    freq: int,
    delta_t: int,
    amp: int,
    k: int,
    i: int,
) -> int {
    scale_spec(
        entry_amp_spec(amps[k], amp, k),
        sine_wave_spec(phase_after(phases[k], osc_inc_spec(freq * (k + 1), delta_t), i as nat)),
    )
}

/// The `i`-th sample summed over the first `upto` partials.
pub open spec fn harm_partial(
    amps: Seq<int>,
    phases: Seq<int>,
    freq: int,
    delta_t: int,
    amp: int,
    i: int,
    upto: int,
) -> int
    decreases upto,
{
    if upto <= 0 {
        0
    } else {
        harm_partial(amps, phases, freq, delta_t, amp, i, upto - 1) + harm_term(
            amps,
            phases,
            freq,
            delta_t,
            amp,
            upto - 1,
            i,
        )
    }
}

/// What one harmonic `fill_samples` call does: the buffer is replaced by
/// the sum of the partials (it is zeroed first, by contract), and each
/// partial's phase advances once per sample at its own frequency.
pub open spec fn harm_fill_ok(
    h: HarmonicOscillator,
    st0: HarmonicOscillatorState,
    st1: HarmonicOscillatorState,
    delta_t: i64,
    freq: u64,
    amp: i64,
    b1: Seq<i64>,
) -> bool {
    &&& st0.phases().len() == h.n_harmonics()
    &&& st1.phases().len() == st0.phases().len()
    &&& forall|k: int|
        0 <= k < st0.phases().len() ==> #[trigger] st1.phases()[k] == phase_after(
            st0.phases()[k],
            osc_inc_spec((freq as int) * (k + 1), delta_t as int),
            b1.len(),
        )
    &&& forall|i: int|
        0 <= i < b1.len() ==> #[trigger] b1[i] == harm_partial(
            h.amps(),
            st0.phases(),
            freq as int,
            delta_t as int,
            amp as int,
            i,
            h.n_harmonics(),
        )
}

/// Each partial adds at most [`UNIT`], so the stacked sample is bounded by
/// the number of partials.
pub proof fn lemma_harm_partial_bound(
    amps: Seq<int>,
    phases: Seq<int>,
    freq: int,
    delta_t: int,
    amp: int,
    i: int,
    upto: int,
)
    requires
        0 <= amp <= UNIT,
        0 <= freq,
        0 < delta_t,
        forall|k: int| 0 <= k < amps.len() ==> 0 <= #[trigger] amps[k] <= UNIT,
        forall|k: int| 0 <= k < phases.len() ==> 0 <= #[trigger] phases[k] < UNIT,
        0 <= upto <= amps.len(),
        upto <= phases.len(),
        0 <= i,
    ensures
        -upto * UNIT <= harm_partial(amps, phases, freq, delta_t, amp, i, upto) <= upto * UNIT,
    decreases upto,
{
    if upto <= 0 {
        assert(-upto * UNIT == 0 && upto * UNIT == 0) by (nonlinear_arith)
            requires
                upto == 0,
        ;
    } else {
        lemma_harm_partial_bound(amps, phases, freq, delta_t, amp, i, upto - 1);
        let k = upto - 1;
        assert(0 <= amps[k] * amp <= UNIT * UNIT) by (nonlinear_arith)
            requires
                0 <= amps[k] <= UNIT,
                0 <= amp <= UNIT,
        ;
        vstd::arithmetic::div_mod::lemma_div_is_ordered(amps[k] * amp, UNIT * UNIT, UNIT as int);
        vstd::arithmetic::div_mod::lemma_div_by_multiple(UNIT as int, UNIT as int);
        vstd::arithmetic::div_mod::lemma_div_pos_is_pos(amps[k] * amp, UNIT as int);
        vstd::arithmetic::div_mod::lemma_div_nonincreasing(amps[k] * amp / (UNIT as int), k + 1);
        vstd::arithmetic::div_mod::lemma_div_pos_is_pos(amps[k] * amp / (UNIT as int), k + 1);
        let inc = osc_inc_spec(freq * (k + 1), delta_t);
        assert(0 <= freq * (k + 1)) by (nonlinear_arith)
            requires
                0 <= freq,
                0 <= k + 1,
        ;
        assert(0 <= freq * (k + 1) * delta_t) by (nonlinear_arith)
            requires
                0 <= freq * (k + 1),
                0 < delta_t,
        ;
        vstd::arithmetic::div_mod::lemma_div_pos_is_pos(freq * (k + 1) * delta_t, UNIT as int);
        lemma_phase_after_range(phases[k], inc, i as nat);
        lemma_sine_wave_bounds(phase_after(phases[k], inc, i as nat));
        lemma_scale_bound(
            entry_amp_spec(amps[k], amp, k),
            sine_wave_spec(phase_after(phases[k], inc, i as nat)),
        );
        assert(-upto * UNIT == -(upto - 1) * UNIT - UNIT && upto * UNIT == (upto - 1) * UNIT
            + UNIT) by (nonlinear_arith);
    }
}

impl HarmonicOscillator {
    /// The relative amplitude of each partial, scaled by [`UNIT`].
    pub closed spec fn amps(self) -> Seq<int> {
        self.table@.map(|i: int, e: TableEntry| e.amplitude as int)
    }

    /// The number of partials.
    pub open spec fn n_harmonics(self) -> int {
        self.amps().len() as int
    }

    /// Boundedly many partials, each with a relative amplitude in `[0, 1]`.
    pub open spec fn wf(self) -> bool {
        &&& self.n_harmonics() <= MAX_HARMONICS
        &&& forall|k: int| 0 <= k < self.n_harmonics() ==> 0 <= #[trigger] self.amps()[k] <= UNIT
    }

    /// Whether `st` has one in-range phase per partial.
    pub open spec fn state_ok(self, st: HarmonicOscillatorState) -> bool {
        &&& st.phases().len() == self.n_harmonics()
        &&& forall|k: int| 0 <= k < st.phases().len() ==> 0 <= #[trigger] st.phases()[k] < UNIT
    }

    /// A new stack from the relative amplitude of each partial.
    pub fn new(amps: &[i64]) -> (r: Self)
        requires
            amps@.len() <= MAX_HARMONICS,
            forall|k: int| 0 <= k < amps@.len() ==> 0 <= #[trigger] amps@[k] <= UNIT,
        ensures
            r.wf(),
            r.n_harmonics() == amps@.len(),
            forall|k: int| 0 <= k < amps@.len() ==> #[trigger] r.amps()[k] == amps@[k],
    {
        let n = amps.len();
        let mut table: Vec<TableEntry> = Vec::with_capacity(n);
        let mut i: usize = 0;
        while i < n
            invariant
                i <= n,
                n == amps@.len(),
                table.len() == i,
                forall|k: int| 0 <= k < i ==> #[trigger] table[k].amplitude == amps@[k],
            decreases n - i,
        {
            let a = amps[i];
            table.push(TableEntry { osc: SineOscillator, amplitude: a });
            i += 1;
        }
        let r = HarmonicOscillator { table };
        proof {
            assert(forall|k: int| 0 <= k < amps@.len() ==> #[trigger] r.amps()[k] == amps@[k]);
        }
        r
    }

    /// The number of partials.
    pub fn harmonic_count(&self) -> (r: usize)
        ensures
            r == self.n_harmonics(),
    {
        self.table.len()
    }

    /// A fresh per-note state with every partial's phase at 0.
    pub fn create_state(&self) -> (st: HarmonicOscillatorState)
        ensures
            st.phases() =~= Seq::new(self.n_harmonics() as nat, |k: int| 0int),
            self.state_ok(st),
    {
        let n = self.table.len();
        let mut states: Vec<SineOscillatorState> = Vec::with_capacity(n);
        let mut i: usize = 0;
        while i < n
            invariant
                i <= n,
                states.len() == i,
                forall|k: int| 0 <= k < i ==> #[trigger] states[k].phase == 0,
            decreases n - i,
        {
            states.push(SineOscillatorState { phase: 0 });
            i += 1;
        }
        let st = HarmonicOscillatorState { states };
        proof {
            assert(st.phases() =~= Seq::new(self.n_harmonics() as nat, |k: int| 0int));
        }
        st
    }

    /// Zero the buffer, then layer each partial's sine contribution into it:
    /// partial `k` (1-based) at `freq * k` with amplitude `entry * amp / k`.
    pub fn fill_samples(
        &self,
        state: &mut HarmonicOscillatorState,
        buffer: &mut Vec<i64>,
        delta_t: i64,
        freq: u64,
        amp: i64,
    )
        requires
            self.wf(),
            self.state_ok(*old(state)),
            0 < delta_t <= DT_MAX,
            freq <= FREQ_MAX,
            (freq as int) * self.n_harmonics() <= FREQ_MAX as int,
            0 <= amp <= UNIT,
        ensures
            final(buffer)@.len() == old(buffer)@.len(),
            harm_fill_ok(
                *self,
                *old(state),
                *final(state),
                delta_t,
                freq,
                amp,
                final(buffer)@,
            ),
            self.state_ok(*final(state)),
    {
        let ghost ph0 = old(state).phases();
        let n = buffer.len();
        let mut i: usize = 0;
        while i < n
            invariant
                i <= n,
                buffer@.len() == n,
                forall|j: int| 0 <= j < i ==> #[trigger] buffer@[j] == 0,
            decreases n - i,
        {
            buffer[i] = 0;
            i += 1;
        }
        let m = self.table.len();
        let mut k: usize = 0;
        while k < m
            invariant
                self.wf(),
                0 < delta_t <= DT_MAX,
                freq <= FREQ_MAX,
                (freq as int) * self.n_harmonics() <= FREQ_MAX as int,
                0 <= amp <= UNIT,
                k <= m,
                m == self.n_harmonics(),
                buffer@.len() == n,
                n == old(buffer)@.len(),
                state.phases().len() == m,
                ph0.len() == m,
                forall|t: int| 0 <= t < ph0.len() ==> 0 <= #[trigger] ph0[t] < UNIT,
                forall|t: int|
                    0 <= t < k ==> #[trigger] state.phases()[t] == phase_after(
                        ph0[t],
                        osc_inc_spec((freq as int) * (t + 1), delta_t as int),
                        n as nat,
                    ),
                forall|t: int| k <= t < m ==> #[trigger] state.phases()[t] == ph0[t],
                forall|t: int| 0 <= t < m ==> 0 <= #[trigger] state.phases()[t] < UNIT,
                forall|j: int|
                    0 <= j < n ==> #[trigger] buffer@[j] == harm_partial(
                        self.amps(),
                        ph0,
                        freq as int,
                        delta_t as int,
                        amp as int,
                        j,
                        k as int,
                    ),
                forall|j: int|
                    0 <= j < n ==> -(k as int) * UNIT <= #[trigger] buffer@[j] <= (k as int)
                        * UNIT,
            decreases m - k,
        {
            proof {
                assert((freq as int) * ((k as int) + 1) <= (freq as int)
                    * self.n_harmonics()) by (nonlinear_arith)
                    requires
                        (k as int) + 1 <= self.n_harmonics(),
                        0 <= freq,
                ;
                assert(self.amps()[k as int] * amp <= UNIT * UNIT
                    && 0 <= self.amps()[k as int] * amp) by (nonlinear_arith)
                    requires
                        0 <= self.amps()[k as int] <= UNIT,
                        0 <= amp <= UNIT,
                ;
                vstd::arithmetic::div_mod::lemma_div_is_ordered(
                    self.amps()[k as int] * amp, UNIT * UNIT, UNIT as int);
                vstd::arithmetic::div_mod::lemma_div_by_multiple(UNIT as int, UNIT as int);
            }
            let a = self.table[k].amplitude;
            let ea = udiv(udiv(a * amp, UNIT), (k as i64) + 1);
            let ef = freq * ((k as u64) + 1);
            let p = state.states[k].phase;
            let mut st = SineOscillatorState { phase: p };
            let stk = &self.table[k];
            let ghost bpre = buffer@;
            proof {
                assert(state.phases()[k as int] == p as int);
                assert(p as int == ph0[k as int]);
                assert(0 <= p < UNIT);
                assert forall|j: int|
                    0 <= j < n implies -crate::SAMPLE_MAX <= #[trigger] buffer@[j]
                    <= crate::SAMPLE_MAX by {}
            }
            stk.osc.fill_samples(&mut st, buffer, delta_t, ef, ea);
            let ghost ph_pre = state.phases();
            state.states[k] = st;
            proof {
                assert forall|t: int|
                    0 <= t < m && t != k as int implies #[trigger] state.phases()[t]
                    == ph_pre[t] by {}
                assert(state.phases()[k as int] == st.phase as int);
            }
            proof {
                let ki = k as int;
                let inc = osc_inc_spec((freq as int) * (ki + 1), delta_t as int);
                assert forall|j: int| 0 <= j < n implies #[trigger] buffer@[j] == harm_partial(
                    self.amps(),
                    ph0,
                    freq as int,
                    delta_t as int,
                    amp as int,
                    j,
                    ki + 1,
                ) by {
                    assert(buffer@[j] == bpre[j] + scale_spec(
                        ea as int,
                        sine_wave_spec(phase_after(ph0[ki], inc, j as nat)),
                    ));
                    assert(ea == entry_amp_spec(self.amps()[ki], amp as int, ki));
                }
                assert forall|j: int|
                    0 <= j < n implies -(ki + 1) * UNIT <= #[trigger] buffer@[j] <= (ki + 1)
                    * UNIT by {
                    lemma_phase_after_range(ph0[ki], inc, j as nat);
                    lemma_sine_wave_bounds(phase_after(ph0[ki], inc, j as nat));
                    lemma_scale_bound(
                        ea as int,
                        sine_wave_spec(phase_after(ph0[ki], inc, j as nat)),
                    );
                    assert(-(ki + 1) * UNIT == -(ki * UNIT) - UNIT) by (nonlinear_arith);
                    assert((ki + 1) * UNIT == ki * UNIT + UNIT) by (nonlinear_arith);
                }
            }
            k += 1;
        }
    }
}

} // verus!
