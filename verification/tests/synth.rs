use happy_synth::envelope::adsr::AdsrEnvelope;
use happy_synth::envelope::Envelope;
use happy_synth::note::NoteState;
use happy_synth::osc::sine::{sine_wave, SineOscillator};
use happy_synth::osc::Oscillator;
use happy_synth::{Config, Synth, UNIT};

fn scale(gain: i64, w: i64) -> i64 {
    if w >= 0 {
        gain * w / UNIT
    } else {
        -(gain * -w / UNIT)
    }
}

fn test_synth(max_notes: usize) -> Synth {
    // 1 kHz sample rate, linear ADSR with attack 10 ms, decay 10 ms,
    // sustain 0.5, release 100 ms, sine oscillator
    let cfg = Config { sample_rate: 1_000_000_000, buffer_size: 10, leftover_sample_count: 0 };
    let adsr = Envelope::Adsr(AdsrEnvelope::new(10_000, 10_000, 500_000, 100_000));
    Synth::new(cfg, Oscillator::Sine(SineOscillator), adsr, max_notes)
}

#[test]
fn end_to_end_attack_ramp() {
    // start a 440 Hz note at full gain and render ten samples: the first
    // sample's envelope gain is exactly 0, the tenth (at 9 ms, 90% through
    // the attack) exactly 0.9, each scaling the sine waveform at that
    // sample's phase
    let mut synth = test_synth(256);
    synth.start_note(440_000_000, UNIT);
    let mut buf = vec![0i64; 10];
    synth.render(&mut buf);

    assert_eq!(buf[0], 0);
    for (i, v) in buf.iter().enumerate() {
        let w = sine_wave(((i as i64) * 440_000) % UNIT);
        let env = (i as i64) * 100_000;
        assert_eq!(*v, scale(env, w));
    }
    let w9 = sine_wave(960_000);
    assert_eq!(buf[9], scale(900_000, w9));
}

#[test]
fn render_keeps_phase_and_clock_across_buffers() {
    let mut synth = test_synth(256);
    synth.start_note(440_000_000, UNIT);
    let mut first = vec![0i64; 10];
    synth.render(&mut first);
    let mut second = vec![0i64; 10];
    synth.render(&mut second);

    // the second buffer carries on at 10 ms (full gain of the attack's end)
    // with the phase accumulated over the first ten samples
    let e = AdsrEnvelope::new(10_000, 10_000, 500_000, 100_000);
    for (i, v) in second.iter().enumerate() {
        let t = 10_000 + (i as i64) * 1_000;
        let env = e.sample(NoteState::Holding(t));
        let w = sine_wave((4_400_000 + (i as i64) * 440_000) % UNIT);
        assert_eq!(*v, scale(env, w));
    }
}

#[test]
fn render_adds_to_existing_content() {
    // render does not clear the buffer: callers must
    let mut synth = test_synth(256);
    synth.start_note(440_000_000, UNIT);
    let mut dirty = vec![123_456i64; 10];
    synth.render(&mut dirty);
    let mut synth2 = test_synth(256);
    synth2.start_note(440_000_000, UNIT);
    let mut clean = vec![0i64; 10];
    synth2.render(&mut clean);
    for i in 0..10 {
        assert_eq!(dirty[i], 123_456 + clean[i]);
    }
}

#[test]
fn capacity_evicts_oldest() {
    let mut synth = test_synth(2);
    synth.start_note(100_000_000, UNIT);
    synth.start_note(200_000_000, UNIT);
    assert_eq!(synth.note_count(), 2);
    synth.start_note(300_000_000, UNIT);
    assert_eq!(synth.note_count(), 2);
}

#[test]
fn ended_identity_is_a_no_op() {
    let mut synth = test_synth(2);
    let a = synth.start_note(100_000_000, UNIT);
    synth.start_note(200_000_000, UNIT);
    synth.start_note(300_000_000, UNIT);
    // a was evicted; ending it again must change nothing
    synth.end_note(a);
    synth.end_note(a);
    assert_eq!(synth.note_count(), 2);
}

#[test]
fn bookkeeping_sweeps_silent_notes() {
    let cfg = Config { sample_rate: 1_000_000_000, buffer_size: 10, leftover_sample_count: 0 };
    // zero-length release: a released note is silent at once
    let adsr = Envelope::Adsr(AdsrEnvelope::new(10_000, 10_000, 500_000, 0));
    let mut synth = Synth::new(cfg, Oscillator::Sine(SineOscillator), adsr, 4);
    let a = synth.start_note(100_000_000, UNIT);
    let b = synth.start_note(200_000_000, UNIT);
    synth.bookkeeping();
    assert_eq!(synth.note_count(), 2);
    synth.end_note(a);
    synth.bookkeeping();
    assert_eq!(synth.note_count(), 1);
    // the held note survives every sweep
    let _ = b;
    synth.bookkeeping();
    assert_eq!(synth.note_count(), 1);
}

#[test]
fn released_note_fades_out() {
    let mut synth = test_synth(4);
    let id = synth.start_note(440_000_000, UNIT);
    synth.end_note(id);
    // release restarts the clock: the first sample after release scales the
    // waveform by the full gain, ramping toward 0 over 100 ms
    let mut buf = vec![0i64; 10];
    synth.render(&mut buf);
    let e = AdsrEnvelope::new(10_000, 10_000, 500_000, 100_000);
    for (i, v) in buf.iter().enumerate() {
        let env = e.sample(NoteState::Released((i as i64) * 1_000));
        let w = sine_wave(((i as i64) * 440_000) % UNIT);
        assert_eq!(*v, scale(env, w));
    }
}

#[test]
fn default_config_is_valid() {
    let cfg = Config::default();
    assert_eq!(cfg.sample_rate, happy_synth::DEFAULT_SAMPLE_RATE);
    assert_eq!(cfg.buffer_size, happy_synth::DEFAULT_BUFFER_SIZE);
    assert_eq!(cfg.leftover_sample_count, happy_synth::DEFAULT_LEFTOVER_SAMPLE_COUNT);
    assert_eq!(cfg.delta_t(), 22);
}

#[test]
fn fresh_identities_and_frequency_checks() {
    let synth = test_synth(2);
    assert!(synth.has_fresh_ids());
    assert!(synth.freq_ok(440_000_000));
    assert!(!synth.freq_ok(2_000_000_000_000));
}
