//! ADSR envelope configurations, linear and exponential.

use vstd::prelude::*;

use super::state_time_ok;
use crate::fixed::{div_floor, udiv};
use crate::note::NoteState;
use crate::{TIME_MAX, UNIT};

verus! {

/// Largest shape parameter of the exponential envelope, scaled by [`UNIT`].
pub const END_X_MAX: i64 = 20_000_000;

/// An ADSR envelope configuration.  All times are in microseconds and all
/// amplitudes are scaled by [`UNIT`].
///
/// ```plaintext
/// amplitude
/// ^
/// |     /|\
/// |    / | \
/// |   /  |  +---------------+\ -  -  -  -  -  -  -  +
/// |  /   |  |               | \                     | Sustain
/// +-+----+--+---------------+--+------> time  -  -  +
///   |    |  |               +--+ Release
///   |    |  |               (note is released)
///   |    +--+ Decay
/// t=0----+ Attack
/// ```
pub struct AdsrEnvelope {
    /// The time it takes for the envelope to reach its maximum amplitude.
    pub attack: i64,
    /// The time it takes for the envelope to reach the sustain amplitude.
    pub decay: i64,
    /// The amplitude of the envelope while the note is held.  [`UNIT`] is the
    /// default amplitude.
    pub sustain: i64,
    /// The time it takes for the envelope to reach 0 after the note is
    /// released.
    pub release: i64,
}

impl AdsrEnvelope {
    /// Durations are non-negative and bounded, the sustain level is a gain in
    /// `[0, 1]`.
    pub open spec fn wf(self) -> bool {
        &&& 0 <= self.attack <= TIME_MAX
        &&& 0 <= self.decay <= TIME_MAX
        &&& 0 <= self.sustain <= UNIT
        &&& 0 <= self.release <= TIME_MAX
    }

    /// The amplitude of the envelope at the given note state, a gain scaled
    /// by [`UNIT`].
    ///
    /// While holding, the amplitude ramps from 0 to [`UNIT`] over the attack,
    /// then down to `sustain` over the decay, and holds there.  After the
    /// release event it ramps from [`UNIT`] down to 0 over the release (from
    /// the full gain, not from the last held amplitude — a deliberate
    /// simplification of this variant).  A zero-length phase is skipped
    /// instantaneously.
    pub open spec fn spec_sample(self, state: NoteState) -> int {
        match state {
            NoteState::Holding(t) => {
                if t < 0 {
                    0
                } else if t < self.attack {
                    t * UNIT / self.attack as int
                } else if t < self.attack + self.decay {
                    UNIT - (UNIT - self.sustain) * (t - self.attack) / self.decay as int
                } else {
                    self.sustain as int
                }
            },
            NoteState::Released(t) => {
                if t < self.release {
                    UNIT - t * UNIT / self.release as int
                } else {
                    0
                }
            },
        }
    }

    /// Whether a note in the given state will not make any sound anymore:
    /// exactly when it has been released for at least the release duration.
    pub open spec fn spec_note_ended(self, state: NoteState) -> bool {
        match state {
            NoteState::Holding(_) => false,
            NoteState::Released(t) => t >= self.release,
        }
    }

    /// Sample the envelope at a given time.
    pub fn sample(&self, state: NoteState) -> (r: i64)
        requires
            self.wf(),
            state_time_ok(state),
        ensures
            r == self.spec_sample(state),
            0 <= r <= UNIT,
    {
        match state {
            NoteState::Holding(t) => {
                if t < 0 {
                    0
                } else if t < self.attack {
                    let r = udiv(t * UNIT, self.attack);
                    assert(r <= UNIT) by {
                        assert(t * UNIT <= self.attack * UNIT) by (nonlinear_arith)
                            requires
                                t <= self.attack,
                        ;
                        vstd::arithmetic::div_mod::lemma_div_is_ordered(
                            t * UNIT, self.attack * UNIT, self.attack as int);
                        vstd::arithmetic::div_mod::lemma_div_by_multiple(
                            UNIT as int, self.attack as int);
                    };
                    r
                } else if t < self.attack + self.decay {
                    proof {
                        assert(0 <= (UNIT - self.sustain) * (t - self.attack)
                            <= (UNIT - self.sustain) * self.decay
                            && (UNIT - self.sustain) * self.decay
                                <= 1_000_000_000_000_000_000) by (nonlinear_arith)
                            requires
                                0 <= t - self.attack <= self.decay,
                                0 <= UNIT - self.sustain <= 1_000_000,
                                0 <= self.decay <= 1_000_000_000_000,
                        ;
                    }
                    let d = udiv((UNIT - self.sustain) * (t - self.attack), self.decay);
                    assert(d <= UNIT - self.sustain) by {
                        vstd::arithmetic::div_mod::lemma_div_is_ordered(
                            (UNIT - self.sustain) * (t - self.attack),
                            (UNIT - self.sustain) * self.decay,
                            self.decay as int);
                        vstd::arithmetic::div_mod::lemma_div_by_multiple(
                            (UNIT - self.sustain) as int, self.decay as int);
                    };
                    UNIT - d
                } else {
                    self.sustain
                }
            },
            NoteState::Released(t) => {
                if t < self.release {
                    let d = udiv(t * UNIT, self.release);
                    assert(d <= UNIT) by {
                        assert(t * UNIT <= self.release * UNIT) by (nonlinear_arith)
                            requires
                                t <= self.release,
                        ;
                        vstd::arithmetic::div_mod::lemma_div_is_ordered(
                            t * UNIT, self.release * UNIT, self.release as int);
                        vstd::arithmetic::div_mod::lemma_div_by_multiple(
                            UNIT as int, self.release as int);
                    };
                    UNIT - d
                } else {
                    0
                }
            },
        }
    }

    /// Returns whether the note will not make any sound anymore.
    pub fn note_ended(&self, state: NoteState) -> (r: bool)
        ensures
            r == self.spec_note_ended(state),
            r <==> (state matches NoteState::Released(t) && t >= self.release),
    {
        match state {
            NoteState::Holding(_) => false,
            NoteState::Released(t) => t >= self.release,
        }
    }

    /// A new envelope from its four parameters.
    pub fn new(attack: i64, decay: i64, sustain: i64, release: i64) -> (r: Self)
        requires
            0 <= attack <= TIME_MAX,
            0 <= decay <= TIME_MAX,
            0 <= sustain <= UNIT,
            0 <= release <= TIME_MAX,
        ensures
            r == (AdsrEnvelope { attack, decay, sustain, release }),
            r.wf(),
    {
        AdsrEnvelope { attack, decay, sustain, release }
    }

    /// An envelope that plays the note at full gain while it is held and
    /// silences it the moment it is released.
    pub fn immediate() -> (r: Self)
        ensures
            r == (AdsrEnvelope { attack: 0, decay: 0, sustain: UNIT, release: 0 }),
            r.wf(),
    {
        AdsrEnvelope { attack: 0, decay: 0, sustain: UNIT, release: 0 }
    }
}

impl Default for AdsrEnvelope {
    fn default() -> (r: Self)
        ensures
            r == (AdsrEnvelope { attack: 0, decay: 0, sustain: UNIT, release: 0 }),
            r.wf(),
    {
        AdsrEnvelope::immediate()
    }
}

/// The four-term series denominator standing in for `e^x`, on arguments
/// scaled by [`UNIT`].
pub open spec fn exp_denom_spec(x: int) -> int {
    UNIT + x + x * x / (2 * UNIT) + x * x * x / (6 * UNIT * UNIT) + x * x * x * x / (24 * UNIT
        * UNIT * UNIT)
}

/// A monotone rational stand-in for `e^(-x)` on the non-negative axis,
/// scaled by [`UNIT`]: the reciprocal of a truncated series for `e^x`.
/// Exactly [`UNIT`] at 0 and strictly below it for positive arguments.
pub open spec fn exp_neg_spec(x: int) -> int {
    UNIT * UNIT / exp_denom_spec(x)
}

fn exp_neg(x: i64) -> (r: i64)
    requires
        0 <= x <= END_X_MAX,
    ensures
        r == exp_neg_spec(x as int),
        0 < r <= UNIT,
        x >= 1 ==> r < UNIT,
{
    proof {
        let xi = x as int;
        assert(0 <= xi * xi <= 400_000_000_000_000) by (nonlinear_arith)
            requires
                0 <= xi <= 20_000_000,
        ;
        assert(0 <= xi * xi * xi <= 8_000_000_000_000_000_000_000) by (nonlinear_arith)
            requires
                0 <= xi <= 20_000_000,
                xi * xi <= 400_000_000_000_000,
        ;
        assert(0 <= xi * xi * xi * xi
            <= 160_000_000_000_000_000_000_000_000_000) by (nonlinear_arith)
            requires
                0 <= xi <= 20_000_000,
                xi * xi * xi <= 8_000_000_000_000_000_000_000,
        ;
        vstd::arithmetic::div_mod::lemma_div_is_ordered(
            xi * xi, 400_000_000_000_000, 2_000_000);
        vstd::arithmetic::div_mod::lemma_div_pos_is_pos(xi * xi, 2_000_000);
        vstd::arithmetic::div_mod::lemma_div_is_ordered(
            xi * xi * xi, 8_000_000_000_000_000_000_000, 6_000_000_000_000);
        vstd::arithmetic::div_mod::lemma_div_pos_is_pos(xi * xi * xi, 6_000_000_000_000);
        vstd::arithmetic::div_mod::lemma_div_is_ordered(
            xi * xi * xi * xi,
            160_000_000_000_000_000_000_000_000_000,
            24_000_000_000_000_000_000);
        vstd::arithmetic::div_mod::lemma_div_pos_is_pos(
            xi * xi * xi * xi, 24_000_000_000_000_000_000);
    }
    let xu = x as u128;
    let t2 = xu * xu / 2_000_000;
    let t3 = xu * xu * xu / 6_000_000_000_000;
    let t4 = xu * xu * xu * xu / 24_000_000_000_000_000_000;
    let d = 1_000_000 + xu + t2 + t3 + t4;
    proof {
        let di = exp_denom_spec(x as int);
        assert(d == di);
        vstd::arithmetic::div_mod::lemma_div_is_ordered_by_denominator(
            1_000_000_000_000, 1_000_000, di);
        vstd::arithmetic::div_mod::lemma_div_by_multiple(1_000_000, 1_000_000);
        vstd::arithmetic::div_mod::lemma_div_is_ordered(di, 1_000_000_000_000, di);
        vstd::arithmetic::div_mod::lemma_div_by_self(di);
        if x >= 1 {
            assert(1_000_000_000_000int < di * 1_000_000) by (nonlinear_arith)
                requires
                    di >= 1_000_001,
            ;
            vstd::arithmetic::div_mod::lemma_multiply_divide_lt(
                1_000_000_000_000, di, 1_000_000);
        }
    }
    (1_000_000_000_000u128 / d) as i64
}

/// A value clamped into the `[0, UNIT]` gain range.
pub open spec fn clamp_unit(v: int) -> int {
    if v < 0 {
        0
    } else if v > UNIT {
        UNIT as int
    } else {
        v
    }
}

/// The inverse-exponential segment from `y_start` at `t = 0` to `y_end` at
/// `t = UNIT` (a normalized time), shaped by `end_x`: the curve
/// `a * e^(-x) + c` fitted through both endpoints, sampled at `x = t * end_x`
/// and clamped into the gain range.
pub open spec fn sample_exp_spec(y_start: int, y_end: int, end_x: int, t: int) -> int {
    let em = exp_neg_spec(end_x);
    let a = (y_start - y_end) * UNIT / (UNIT - em);
    let c = y_start - a;
    clamp_unit(a * exp_neg_spec(t * end_x / (UNIT as int)) / (UNIT as int) + c)
}

fn sample_exp(y_start: i64, y_end: i64, end_x: i64, t: i64) -> (r: i64)
    requires
        0 <= y_start <= UNIT,
        0 <= y_end <= UNIT,
        1 <= end_x <= END_X_MAX,
        0 <= t <= UNIT,
    ensures
        r == sample_exp_spec(y_start as int, y_end as int, end_x as int, t as int),
        0 <= r <= UNIT,
{
    let em = exp_neg(end_x);
    let a = div_floor((y_start - y_end) * UNIT, UNIT - em);
    let c = y_start - a;
    proof {
        assert(0 <= t * end_x <= 20_000_000_000_000) by (nonlinear_arith)
            requires
                0 <= t <= 1_000_000,
                1 <= end_x <= 20_000_000,
        ;
        assert(t * end_x <= 1_000_000 * end_x) by (nonlinear_arith)
            requires
                0 <= t <= 1_000_000,
                0 <= end_x,
        ;
        vstd::arithmetic::div_mod::lemma_div_is_ordered(
            t * end_x, 1_000_000 * end_x, 1_000_000);
        vstd::arithmetic::div_mod::lemma_div_multiples_vanish(end_x as int, 1_000_000);
    }
    let x = udiv(t * end_x, UNIT);
    let e = exp_neg(x);
    proof {
        assert(-1_000_000_000_000_000_000 <= a * e
            <= 1_000_000_000_000_000_000) by (nonlinear_arith)
            requires
                -1_000_000_000_000 <= a <= 1_000_000_000_000,
                0 < e <= 1_000_000,
        ;
    }
    let v = div_floor(a * e, UNIT) + c;
    if v < 0 {
        0
    } else if v > UNIT {
        UNIT
    } else {
        v
    }
}

/// An ADSR envelope that uses an inverse-exponential curve for the phase
/// transitions, giving analog-style convex and concave ramps instead of
/// straight lines.
pub struct ExponentialAdsrEnvelope {
    /// The ending x value of the exponential curve: a shape parameter,
    /// scaled by [`UNIT`], controlling how sharply each ramp bends.
    pub end_x: i64,
    /// The actual envelope configuration.
    pub props: AdsrEnvelope,
}

impl ExponentialAdsrEnvelope {
    /// A valid configuration with a positive, bounded shape parameter.
    pub open spec fn wf(self) -> bool {
        &&& self.props.wf()
        &&& 1 <= self.end_x <= END_X_MAX
    }

    /// The amplitude at the given note state: the same three ramps as the
    /// linear variant, each following the fitted inverse-exponential curve
    /// over a normalized time; the release ramps from `sustain` down to 0.
    pub open spec fn spec_sample(self, state: NoteState) -> int {
        match state {
            NoteState::Holding(t) => {
                if t < 0 {
                    0
                } else if t < self.props.attack {
                    sample_exp_spec(
                        0,
                        UNIT as int,
                        self.end_x as int,
                        t * UNIT / self.props.attack as int,
                    )
                } else if t < self.props.attack + self.props.decay {
                    sample_exp_spec(
                        UNIT as int,
                        self.props.sustain as int,
                        self.end_x as int,
                        (t - self.props.attack) * UNIT / self.props.decay as int,
                    )
                } else {
                    self.props.sustain as int
                }
            },
            NoteState::Released(t) => {
                if t < self.props.release {
                    sample_exp_spec(
                        self.props.sustain as int,
                        0,
                        self.end_x as int,
                        t * UNIT / self.props.release as int,
                    )
                } else {
                    0
                }
            },
        }
    }

    /// Whether a note in the given state will not make any sound anymore:
    /// the same rule as the linear variant.
    pub open spec fn spec_note_ended(self, state: NoteState) -> bool {
        self.props.spec_note_ended(state)
    }

    /// Sample the envelope at a given time.
    pub fn sample(&self, state: NoteState) -> (r: i64)
        requires
            self.wf(),
            state_time_ok(state),
        ensures
            r == self.spec_sample(state),
            0 <= r <= UNIT,
    {
        match state {
            NoteState::Holding(t) => {
                if t < 0 {
                    0
                } else if t < self.props.attack {
                    proof {
                        assert(t * UNIT <= self.props.attack * UNIT) by (nonlinear_arith)
                            requires
                                t <= self.props.attack,
                        ;
                        vstd::arithmetic::div_mod::lemma_div_is_ordered(
                            t * UNIT, self.props.attack * UNIT, self.props.attack as int);
                        vstd::arithmetic::div_mod::lemma_div_by_multiple(
                            UNIT as int, self.props.attack as int);
                    }
                    sample_exp(0, UNIT, self.end_x, udiv(t * UNIT, self.props.attack))
                } else if t < self.props.attack + self.props.decay {
                    proof {
                        assert((t - self.props.attack) * UNIT <= self.props.decay
                            * UNIT) by (nonlinear_arith)
                            requires
                                t - self.props.attack <= self.props.decay,
                        ;
                        assert(0 <= (t - self.props.attack) * UNIT
                            <= 4_000_000_000_000_000_000) by (nonlinear_arith)
                            requires
                                0 <= t - self.props.attack <= 4_000_000_000_000,
                        ;
                        vstd::arithmetic::div_mod::lemma_div_is_ordered(
                            (t - self.props.attack) * UNIT,
                            self.props.decay * UNIT,
                            self.props.decay as int);
                        vstd::arithmetic::div_mod::lemma_div_by_multiple(
                            UNIT as int, self.props.decay as int);
                    }
                    sample_exp(
                        UNIT,
                        self.props.sustain,
                        self.end_x,
                        udiv((t - self.props.attack) * UNIT, self.props.decay),
                    )
                } else {
                    self.props.sustain
                }
            },
            NoteState::Released(t) => {
                if t < self.props.release {
                    proof {
                        assert(t * UNIT <= self.props.release * UNIT) by (nonlinear_arith)
                            requires
                                t <= self.props.release,
                        ;
                        vstd::arithmetic::div_mod::lemma_div_is_ordered(
                            t * UNIT, self.props.release * UNIT, self.props.release as int);
                        vstd::arithmetic::div_mod::lemma_div_by_multiple(
                            UNIT as int, self.props.release as int);
                    }
                    sample_exp(
                        self.props.sustain,
                        0,
                        self.end_x,
                        udiv(t * UNIT, self.props.release),
                    )
                } else {
                    0
                }
            },
        }
    }

    /// Returns whether the note will not make any sound anymore.
    pub fn note_ended(&self, state: NoteState) -> (r: bool)
        ensures
            r == self.spec_note_ended(state),
            r <==> (state matches NoteState::Released(t) && t >= self.props.release),
    {
        self.props.note_ended(state)
    }
}

/// While a note is held with a positive attack, the envelope is
/// non-decreasing over the attack phase and never exceeds the full gain.
pub proof fn lemma_attack_monotonic(env: AdsrEnvelope, t1: i64, t2: i64)
    requires
        env.wf(),
        0 < env.attack,
        0 <= t1 <= t2 < env.attack,
    ensures
        env.spec_sample(NoteState::Holding(t1)) <= env.spec_sample(NoteState::Holding(t2)),
        env.spec_sample(NoteState::Holding(t2)) <= UNIT,
{
    assert(t1 * UNIT <= t2 * UNIT && t2 * UNIT <= env.attack * UNIT) by (nonlinear_arith)
        requires
            t1 <= t2 <= env.attack,
    ;
    vstd::arithmetic::div_mod::lemma_div_is_ordered(t1 * UNIT, t2 * UNIT, env.attack as int);
    vstd::arithmetic::div_mod::lemma_div_is_ordered(
        t2 * UNIT, env.attack * UNIT, env.attack as int);
    vstd::arithmetic::div_mod::lemma_div_by_multiple(UNIT as int, env.attack as int);
}

/// After release with a positive release time, the envelope is
/// non-increasing and reaches 0 at the end of the release phase.
pub proof fn lemma_release_monotonic(env: AdsrEnvelope, t1: i64, t2: i64)
    requires
        env.wf(),
        0 < env.release,
        0 <= t1 <= t2 <= env.release,
    ensures
        env.spec_sample(NoteState::Released(t2)) <= env.spec_sample(NoteState::Released(t1)),
        env.spec_sample(NoteState::Released(env.release)) == 0,
        0 <= env.spec_sample(NoteState::Released(t2)),
{
    assert(t1 * UNIT <= t2 * UNIT && t2 * UNIT <= env.release * UNIT) by (nonlinear_arith)
        requires
            t1 <= t2 <= env.release,
    ;
    vstd::arithmetic::div_mod::lemma_div_is_ordered(t1 * UNIT, t2 * UNIT, env.release as int);
    vstd::arithmetic::div_mod::lemma_div_is_ordered(
        t1 * UNIT, env.release * UNIT, env.release as int);
    vstd::arithmetic::div_mod::lemma_div_is_ordered(
        t2 * UNIT, env.release * UNIT, env.release as int);
    vstd::arithmetic::div_mod::lemma_div_by_multiple(UNIT as int, env.release as int);
}

} // verus!
