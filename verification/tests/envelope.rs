use happy_synth::envelope::adsr::{AdsrEnvelope, ExponentialAdsrEnvelope};
use happy_synth::note::NoteState;
use happy_synth::UNIT;

fn env() -> AdsrEnvelope {
    // 10 ms attack, 10 ms decay, sustain 0.5, 100 ms release
    AdsrEnvelope::new(10_000, 10_000, 500_000, 100_000)
}

#[test]
fn attack_ramps_up_linearly() {
    let e = env();
    assert_eq!(e.sample(NoteState::Holding(0)), 0);
    assert_eq!(e.sample(NoteState::Holding(5_000)), 500_000);
    assert_eq!(e.sample(NoteState::Holding(9_000)), 900_000);
}

#[test]
fn holding_before_zero_is_silent() {
    let e = env();
    assert_eq!(e.sample(NoteState::Holding(-5)), 0);
}

#[test]
fn decay_ramps_down_to_sustain() {
    let e = env();
    assert_eq!(e.sample(NoteState::Holding(10_000)), UNIT);
    assert_eq!(e.sample(NoteState::Holding(15_000)), 750_000);
    assert_eq!(e.sample(NoteState::Holding(20_000)), 500_000);
    assert_eq!(e.sample(NoteState::Holding(1_000_000)), 500_000);
}

#[test]
fn release_ramps_from_full_gain_to_zero() {
    // the release ramp scales down from the full gain, not from the last
    // held amplitude
    let e = env();
    assert_eq!(e.sample(NoteState::Released(0)), UNIT);
    assert_eq!(e.sample(NoteState::Released(50_000)), 500_000);
    assert_eq!(e.sample(NoteState::Released(100_000)), 0);
    assert_eq!(e.sample(NoteState::Released(200_000)), 0);
}

#[test]
fn attack_samples_non_decreasing() {
    let e = env();
    let mut prev = 0i64;
    let mut t = 0i64;
    while t < 10_000 {
        let v = e.sample(NoteState::Holding(t));
        assert!(v >= prev);
        assert!(v <= UNIT);
        prev = v;
        t += 250;
    }
}

#[test]
fn release_samples_non_increasing() {
    let e = env();
    let mut prev = UNIT;
    let mut t = 0i64;
    while t <= 100_000 {
        let v = e.sample(NoteState::Released(t));
        assert!(v <= prev);
        assert!(v >= 0);
        prev = v;
        t += 2_500;
    }
    assert_eq!(e.sample(NoteState::Released(100_000)), 0);
}

#[test]
fn note_ended_boundary() {
    let e = env();
    assert!(!e.note_ended(NoteState::Released(0)));
    assert!(!e.note_ended(NoteState::Released(99_999)));
    assert!(e.note_ended(NoteState::Released(100_000)));
    assert!(e.note_ended(NoteState::Released(100_001)));
    assert!(!e.note_ended(NoteState::Holding(100_000_000)));
}

#[test]
fn zero_length_phases_are_instantaneous() {
    let e = AdsrEnvelope::new(0, 0, 600_000, 0);
    // no attack, no decay: straight to sustain
    assert_eq!(e.sample(NoteState::Holding(0)), 600_000);
    // no release: silent the moment it is released
    assert_eq!(e.sample(NoteState::Released(0)), 0);
    assert!(e.note_ended(NoteState::Released(0)));
}

#[test]
fn immediate_envelope() {
    let e = AdsrEnvelope::immediate();
    assert_eq!(e.sample(NoteState::Holding(12_345)), UNIT);
    assert_eq!(e.sample(NoteState::Released(0)), 0);
    let d = AdsrEnvelope::default();
    assert_eq!(d.attack, 0);
    assert_eq!(d.sustain, UNIT);
}

#[test]
fn exponential_endpoints() {
    let e = ExponentialAdsrEnvelope { end_x: 2_000_000, props: env() };
    // the fitted curve passes exactly through the ramp start points
    assert_eq!(e.sample(NoteState::Holding(0)), 0);
    assert_eq!(e.sample(NoteState::Released(0)), 500_000);
    // beyond the ramps the value is pinned
    assert_eq!(e.sample(NoteState::Holding(50_000)), 500_000);
    assert_eq!(e.sample(NoteState::Released(100_000)), 0);
}

#[test]
fn exponential_curves_bend_below_the_line() {
    // an inverse-exponential release decays faster than the straight line
    // early on, and every sample stays a valid gain
    let e = ExponentialAdsrEnvelope { end_x: 2_000_000, props: env() };
    let mut t = 0i64;
    let mut prev = UNIT;
    while t <= 100_000 {
        let v = e.sample(NoteState::Released(t));
        assert!((0..=UNIT).contains(&v));
        assert!(v <= prev);
        prev = v;
        t += 5_000;
    }
    let halfway = e.sample(NoteState::Released(50_000));
    assert!(halfway < 250_000);
    assert!(!e.note_ended(NoteState::Released(99_999)));
    assert!(e.note_ended(NoteState::Released(100_000)));
}
