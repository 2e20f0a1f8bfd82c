//! Waveform generation: a stateless oscillator configuration plus one
//! mutable phase state per note.
//!
//! Every `fill_samples` implementation **adds** its samples to the buffer
//! instead of overwriting, so oscillators compose; the one exception is the
//! harmonic stack, which by contract zeroes the buffer first and then layers
//! its partials into it.

use vstd::prelude::*;

pub mod harmonic;
pub mod noise;
pub mod saw;
pub mod sine;
pub mod square;

use crate::fixed::scale_spec;
use crate::{DT_MAX, SAMPLE_MAX, UNIT};
use harmonic::{HarmonicOscillator, HarmonicOscillatorState};
use noise::{NoiseOscillator, NoiseOscillatorState};
use saw::{saw_wave_spec, SawOscillator, SawOscillatorState};
use sine::{sine_wave_spec, SineOscillator, SineOscillatorState};
use square::{square_wave_spec, SquareOscillator, SquareOscillatorState};

verus! {

/// Samples handed to `fill_samples` stay within this magnitude, so that one
/// oscillator contribution more cannot overflow.
pub open spec fn fill_bounds_ok(b: Seq<i64>) -> bool {
    forall|i: int| 0 <= i < b.len() ==> -SAMPLE_MAX <= #[trigger] b[i] <= SAMPLE_MAX
}

/// The per-sample phase increment in micro-cycles: `freq * delta_t` cycles.
pub open spec fn osc_inc_spec(freq: int, delta_t: int) -> int {
    freq * delta_t / (UNIT as int)
}

/// The phase after `n` increments of `inc` micro-cycles, each wrapped into
/// `[0, UNIT)`.
pub open spec fn phase_after(p0: int, inc: int, n: nat) -> int
    decreases n,
{
    if n == 0 {
        p0
    } else {
        (phase_after(p0, inc, (n - 1) as nat) + inc) % (UNIT as int)
    }
}

/// A wrapped phase stays in `[0, UNIT)`.
pub proof fn lemma_phase_after_range(p0: int, inc: int, n: nat)
    requires
        0 <= p0 < UNIT,
        0 <= inc,
    ensures
        0 <= phase_after(p0, inc, n) < UNIT,
    decreases n,
{
    if n > 0 {
        lemma_phase_after_range(p0, inc, (n - 1) as nat);
        vstd::arithmetic::div_mod::lemma_mod_pos_bound(
            phase_after(p0, inc, (n - 1) as nat) + inc, UNIT as int);
    }
}

/// An oscillator: one of the closed set of waveform generators.  The
/// configuration is immutable and may be shared; all per-note mutable state
/// lives in an [`OscillatorState`] owned by the note.
pub enum Oscillator {
    Sine(SineOscillator),
    Saw(SawOscillator),
    Square(SquareOscillator),
    Noise(NoiseOscillator),
    Harmonic(HarmonicOscillator),
}

/// The per-note mutable state of an oscillator, matching its variant.
pub enum OscillatorState {
    Sine(SineOscillatorState),
    Saw(SawOscillatorState),
    Square(SquareOscillatorState),
    Noise(NoiseOscillatorState),
    Harmonic(HarmonicOscillatorState),
}

impl Oscillator {
    pub open spec fn wf(self) -> bool {
        match self {
            Oscillator::Harmonic(h) => h.wf(),
            _ => true,
        }
    }

    /// Whether `st` is a state of this oscillator's kind with its phases in
    /// range.
    pub open spec fn state_ok(self, st: OscillatorState) -> bool {
        match self {
            Oscillator::Sine(_) => st matches OscillatorState::Sine(s) && 0 <= s.phase < UNIT,
            Oscillator::Saw(_) => st matches OscillatorState::Saw(s) && 0 <= s.phase < UNIT,
            Oscillator::Square(_) => st matches OscillatorState::Square(s) && 0 <= s.phase
                < UNIT,
            Oscillator::Noise(_) => st is Noise,
            Oscillator::Harmonic(h) => st matches OscillatorState::Harmonic(s) && h.state_ok(s),
        }
    }

    /// Whether `st` is a freshly created state: every phase at 0.
    pub open spec fn fresh_state_ok(self, st: OscillatorState) -> bool {
        match self {
            Oscillator::Sine(_) => st matches OscillatorState::Sine(s) && s.phase == 0,
            Oscillator::Saw(_) => st matches OscillatorState::Saw(s) && s.phase == 0,
            Oscillator::Square(_) => st matches OscillatorState::Square(s) && s.phase == 0,
            Oscillator::Noise(_) => st is Noise,
            Oscillator::Harmonic(h) => st matches OscillatorState::Harmonic(s) && s.phases()
                =~= Seq::new(h.n_harmonics() as nat, |k: int| 0int),
        }
    }

    /// Whether `freq` is low enough for this oscillator: the harmonic stack
    /// multiplies it by the harmonic index, which must stay within
    /// [`crate::FREQ_MAX`].
    pub open spec fn spec_freq_ok(self, freq: u64) -> bool {
        match self {
            Oscillator::Harmonic(h) => freq <= crate::FREQ_MAX && (freq as int) * h.n_harmonics()
                <= crate::FREQ_MAX as int,
            _ => freq <= crate::FREQ_MAX,
        }
    }

    /// Whether `freq` is low enough for this oscillator.
    pub fn freq_ok(&self, freq: u64) -> (r: bool)
        ensures
            r == self.spec_freq_ok(freq),
    {
        match self {
            Oscillator::Harmonic(h) => {
                let n = h.harmonic_count();
                if n == 0 {
                    freq <= crate::FREQ_MAX
                } else {
                    let bound = crate::FREQ_MAX / (n as u64);
                    proof {
                        let fi = freq as int;
                        let ni = n as int;
                        let fm = crate::FREQ_MAX as int;
                        if freq <= bound {
                            assert(fi * ni <= (bound as int) * ni) by (nonlinear_arith)
                                requires
                                    fi <= bound as int,
                                    0 <= ni,
                            ;
                            assert((bound as int) * ni <= fm) by {
                                vstd::arithmetic::div_mod::lemma_fundamental_div_mod(fm, ni);
                                vstd::arithmetic::div_mod::lemma_mod_pos_bound(fm, ni);
                                assert((bound as int) * ni == ni * (bound as int))
                                    by (nonlinear_arith);
                            };
                        } else if fi * ni <= fm {
                            vstd::arithmetic::div_mod::lemma_div_is_ordered(fi * ni, fm, ni);
                            vstd::arithmetic::div_mod::lemma_div_by_multiple(fi, ni);
                            assert(false);
                        }
                    }
                    freq <= crate::FREQ_MAX && freq <= bound
                }
            },
            _ => freq <= crate::FREQ_MAX,
        }
    }

    /// A fresh per-note state for this oscillator, with every phase at 0.
    pub fn create_state(&self) -> (st: OscillatorState)
        ensures
            self.state_ok(st),
            self.fresh_state_ok(st),
    {
        match self {
            Oscillator::Sine(o) => OscillatorState::Sine(o.create_state()),
            Oscillator::Saw(o) => OscillatorState::Saw(o.create_state()),
            Oscillator::Square(o) => OscillatorState::Square(o.create_state()),
            Oscillator::Noise(o) => OscillatorState::Noise(o.create_state()),
            Oscillator::Harmonic(o) => OscillatorState::Harmonic(o.create_state()),
        }
    }

    /// What one `fill_samples` call does: how the buffer went from `b0` to
    /// `b1` and the state from `st0` to `st1`.  For the deterministic
    /// waveforms the added samples are pinned exactly; for noise only their
    /// bound is; the harmonic stack replaces the buffer outright.
    pub open spec fn fill_ok(
        self,
        st0: OscillatorState,
        st1: OscillatorState,
        delta_t: i64,
        freq: u64,
        amp: i64,
        b0: Seq<i64>,
        b1: Seq<i64>,
    ) -> bool {
        &&& b1.len() == b0.len()
        &&& match self {
            Oscillator::Sine(_) => st0 is Sine && st1 is Sine && {
                let p0 = st0->Sine_0.phase as int;
                let inc = osc_inc_spec(freq as int, delta_t as int);
                &&& st1->Sine_0.phase == phase_after(p0, inc, b0.len())
                &&& forall|i: int|
                    0 <= i < b0.len() ==> b1[i] == b0[i] + scale_spec(
                        amp as int,
                        sine_wave_spec(phase_after(p0, inc, i as nat)),
                    )
            },
            Oscillator::Saw(_) => st0 is Saw && st1 is Saw && {
                let p0 = st0->Saw_0.phase as int;
                let inc = osc_inc_spec(freq as int, delta_t as int);
                &&& st1->Saw_0.phase == phase_after(p0, inc, b0.len())
                &&& forall|i: int|
                    0 <= i < b0.len() ==> b1[i] == b0[i] + scale_spec(
                        amp as int,
                        saw_wave_spec(phase_after(p0, inc, i as nat)),
                    )
            },
            Oscillator::Square(_) => st0 is Square && st1 is Square && {
                let p0 = st0->Square_0.phase as int;
                let inc = osc_inc_spec(freq as int, delta_t as int);
                &&& st1->Square_0.phase == phase_after(p0, inc, b0.len())
                &&& forall|i: int|
                    0 <= i < b0.len() ==> b1[i] == b0[i] + scale_spec(
                        amp as int,
                        square_wave_spec(phase_after(p0, inc, i as nat)),
                    )
            },
            Oscillator::Noise(_) => st1 is Noise && forall|i: int|
                0 <= i < b0.len() ==> b0[i] - amp <= #[trigger] b1[i] <= b0[i] + amp,
            Oscillator::Harmonic(h) => st0 is Harmonic && st1 is Harmonic
                && harmonic::harm_fill_ok(
                h,
                st0->Harmonic_0,
                st1->Harmonic_0,
                delta_t,
                freq,
                amp,
                b1,
            ),
        }
    }

    /// Fill the buffer with samples of the oscillator, advancing the
    /// per-note state.
    pub fn fill_samples(
        &self,
        state: &mut OscillatorState,
        buffer: &mut Vec<i64>,
        delta_t: i64,
        freq: u64,
        amp: i64,
    )
        requires
            self.wf(),
            self.state_ok(*old(state)),
            self.spec_freq_ok(freq),
            0 < delta_t <= DT_MAX,
            0 <= amp <= UNIT,
            fill_bounds_ok(old(buffer)@),
        ensures
            final(buffer)@.len() == old(buffer)@.len(),
            self.state_ok(*final(state)),
            self.fill_ok(
                *old(state),
                *final(state),
                delta_t,
                freq,
                amp,
                old(buffer)@,
                final(buffer)@,
            ),
    {
        match self {
            Oscillator::Sine(o) => match state {
                OscillatorState::Sine(s) => {
                    o.fill_samples(s, buffer, delta_t, freq, amp);
                },
                _ => {
                    proof {
                        assert(false);
                    }
                },
            },
            Oscillator::Saw(o) => match state {
                OscillatorState::Saw(s) => {
                    o.fill_samples(s, buffer, delta_t, freq, amp);
                },
                _ => {
                    proof {
                        assert(false);
                    }
                },
            },
            Oscillator::Square(o) => match state {
                OscillatorState::Square(s) => {
                    o.fill_samples(s, buffer, delta_t, freq, amp);
                },
                _ => {
                    proof {
                        assert(false);
                    }
                },
            },
            Oscillator::Noise(o) => match state {
                OscillatorState::Noise(s) => {
                    o.fill_samples(s, buffer, delta_t, freq, amp);
                },
                _ => {
                    proof {
                        assert(false);
                    }
                },
            },
            Oscillator::Harmonic(o) => match state {
                OscillatorState::Harmonic(s) => {
                    o.fill_samples(s, buffer, delta_t, freq, amp);
                },
                _ => {
                    proof {
                        assert(false);
                    }
                },
            },
        }
    }

    /// The single-waveform variants whose contribution is a function of the
    /// starting state alone.
    pub open spec fn deterministic(self) -> bool {
        self is Sine || self is Saw || self is Square
    }
}

/// A sequence of `n` silent samples.
pub open spec fn zero_seq(n: nat) -> Seq<i64> {
    Seq::new(n, |i: int| 0i64)
}

/// The phase increment is non-negative.
pub proof fn lemma_inc_nonneg(freq: int, delta_t: int)
    requires
        0 <= freq,
        0 <= delta_t,
    ensures
        0 <= osc_inc_spec(freq, delta_t),
{
    assert(0 <= freq * delta_t) by (nonlinear_arith)
        requires
            0 <= freq,
            0 <= delta_t,
    ;
    vstd::arithmetic::div_mod::lemma_div_pos_is_pos(freq * delta_t, UNIT as int);
}

/// What one note can contribute to one sample of a silent buffer: at most
/// [`crate::NOTE_MIX_MAX`] in magnitude, whatever the oscillator.
pub proof fn lemma_fill_scratch_bound(
    osc: Oscillator,
    st0: OscillatorState,
    st1: OscillatorState,
    delta_t: i64,
    freq: u64,
    amp: i64,
    c: Seq<i64>,
)
    requires
        osc.wf(),
        osc.state_ok(st0),
        0 < delta_t,
        0 <= amp <= UNIT,
        osc.fill_ok(st0, st1, delta_t, freq, amp, zero_seq(c.len()), c),
    ensures
        forall|i: int|
            0 <= i < c.len() ==> -crate::NOTE_MIX_MAX <= #[trigger] c[i] <= crate::NOTE_MIX_MAX,
{
    let inc = osc_inc_spec(freq as int, delta_t as int);
    lemma_inc_nonneg(freq as int, delta_t as int);
    assert forall|i: int|
        0 <= i < c.len() implies -crate::NOTE_MIX_MAX <= #[trigger] c[i]
        <= crate::NOTE_MIX_MAX by {
        assert(zero_seq(c.len())[i] == 0);
        match osc {
            Oscillator::Sine(_) => {
                let p = phase_after(st0->Sine_0.phase as int, inc, i as nat);
                lemma_phase_after_range(st0->Sine_0.phase as int, inc, i as nat);
                sine::lemma_sine_wave_bounds(p);
                crate::fixed::lemma_scale_bound(amp as int, sine_wave_spec(p));
            },
            Oscillator::Saw(_) => {
                let p = phase_after(st0->Saw_0.phase as int, inc, i as nat);
                lemma_phase_after_range(st0->Saw_0.phase as int, inc, i as nat);
                crate::fixed::lemma_scale_bound(amp as int, saw_wave_spec(p));
            },
            Oscillator::Square(_) => {
                let p = phase_after(st0->Square_0.phase as int, inc, i as nat);
                lemma_phase_after_range(st0->Square_0.phase as int, inc, i as nat);
                crate::fixed::lemma_scale_bound(amp as int, square_wave_spec(p));
            },
            Oscillator::Noise(_) => {},
            Oscillator::Harmonic(h) => {
                harmonic::lemma_harm_partial_bound(
                    h.amps(),
                    st0->Harmonic_0.phases(),
                    freq as int,
                    delta_t as int,
                    amp as int,
                    i,
                    h.n_harmonics(),
                );
                assert(h.n_harmonics() * UNIT <= crate::NOTE_MIX_MAX);
            },
        }
    }
}

/// Additive composition: for a deterministic oscillator, two successive
/// `fill_samples` calls on one pre-populated buffer add exactly the sum of
/// the contributions the same two calls would write into silent buffers.
pub proof fn lemma_fill_additive(
    osc: Oscillator,
    st0: OscillatorState,
    st1: OscillatorState,
    st2: OscillatorState,
    delta_t: i64,
    freq: u64,
    amp: i64,
    b0: Seq<i64>,
    b1: Seq<i64>,
    b2: Seq<i64>,
    c1: Seq<i64>,
    c2: Seq<i64>,
)
    requires
        osc.deterministic(),
        osc.fill_ok(st0, st1, delta_t, freq, amp, b0, b1),
        osc.fill_ok(st1, st2, delta_t, freq, amp, b1, b2),
        osc.fill_ok(st0, st1, delta_t, freq, amp, zero_seq(b0.len()), c1),
        osc.fill_ok(st1, st2, delta_t, freq, amp, zero_seq(b0.len()), c2),
    ensures
        forall|i: int| 0 <= i < b0.len() ==> b2[i] == b0[i] + c1[i] + c2[i],
{
}

} // verus!
