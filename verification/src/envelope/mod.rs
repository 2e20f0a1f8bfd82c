//! Amplitude-over-time shaping of a note, from onset to silence.

use vstd::prelude::*;

use crate::note::NoteState;
use crate::{ENV_T_MAX, UNIT};

pub mod adsr;

use adsr::{AdsrEnvelope, ExponentialAdsrEnvelope};

verus! {

/// Times at which an envelope can be sampled: bounded, and non-negative
/// once the note is released.
pub open spec fn state_time_ok(state: NoteState) -> bool {
    match state {
        NoteState::Holding(t) => t <= ENV_T_MAX,
        NoteState::Released(t) => 0 <= t <= ENV_T_MAX,
    }
}

/// An envelope: one of the closed set of amplitude shapes.  Stateless —
/// the amplitude is a pure function of the note state handed in.
pub enum Envelope {
    Adsr(AdsrEnvelope),
    ExponentialAdsr(ExponentialAdsrEnvelope),
}

impl Envelope {
    pub open spec fn wf(self) -> bool {
        match self {
            Envelope::Adsr(e) => e.wf(),
            Envelope::ExponentialAdsr(e) => e.wf(),
        }
    }

    /// The amplitude of the envelope at the given note state, a gain scaled
    /// by [`UNIT`].
    pub open spec fn spec_sample(self, state: NoteState) -> int {
        match self {
            Envelope::Adsr(e) => e.spec_sample(state),
            Envelope::ExponentialAdsr(e) => e.spec_sample(state),
        }
    }

    /// The release duration of the envelope, in microseconds.
    pub open spec fn spec_release(self) -> int {
        match self {
            Envelope::Adsr(e) => e.release as int,
            Envelope::ExponentialAdsr(e) => e.props.release as int,
        }
    }

    /// Whether a note in the given state will not make any sound anymore:
    /// exactly when it has been released for at least the release duration.
    pub open spec fn spec_note_ended(self, state: NoteState) -> bool {
        match state {
            NoteState::Holding(_) => false,
            NoteState::Released(t) => t >= self.spec_release(),
        }
    }

    /// Sample the envelope at a given time.
    pub fn sample(&self, state: NoteState) -> (r: i64)
        requires
            self.wf(),
            state_time_ok(state),
        ensures
            r == self.spec_sample(state),
            0 <= r <= UNIT,
    {
        match self {
            Envelope::Adsr(e) => e.sample(state),
            Envelope::ExponentialAdsr(e) => e.sample(state),
        }
    }

    /// Returns whether the note will not make any sound anymore.
    pub fn note_ended(&self, state: NoteState) -> (r: bool)
        ensures
            r == self.spec_note_ended(state),
            r <==> (state matches NoteState::Released(t) && t >= self.spec_release()),
    {
        match self {
            Envelope::Adsr(e) => e.note_ended(state),
            Envelope::ExponentialAdsr(e) => e.note_ended(state),
        }
    }
}

} // verus!
