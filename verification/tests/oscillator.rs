use happy_synth::osc::harmonic::HarmonicOscillator;
use happy_synth::osc::noise::NoiseOscillator;
use happy_synth::osc::saw::SawOscillator;
use happy_synth::osc::sine::{sine_wave, SineOscillator};
use happy_synth::osc::square::SquareOscillator;
use happy_synth::UNIT;

#[test]
fn sine_wave_key_points() {
    assert_eq!(sine_wave(0), 0);
    assert_eq!(sine_wave(250_000), UNIT);
    assert_eq!(sine_wave(500_000), 0);
    assert_eq!(sine_wave(750_000), -UNIT);
    for p in (0..1_000_000).step_by(10_000) {
        let w = sine_wave(p);
        assert!((-UNIT..=UNIT).contains(&w));
    }
}

#[test]
fn saw_fill_adds_exact_ramp() {
    // 250 Hz at 1 kHz sampling: a quarter cycle per sample
    let osc = SawOscillator;
    let mut st = osc.create_state();
    let mut buf = vec![7, 7, 7, 7];
    osc.fill_samples(&mut st, &mut buf, 1_000, 250_000_000, UNIT);
    assert_eq!(buf, vec![7 - UNIT, 7 - 500_000, 7, 7 + 500_000]);
    assert_eq!(st.phase, 0);
}

#[test]
fn square_fill_adds_exact_steps() {
    let osc = SquareOscillator;
    let mut st = osc.create_state();
    let mut buf = vec![0i64; 4];
    osc.fill_samples(&mut st, &mut buf, 1_000, 250_000_000, 300_000);
    assert_eq!(buf, vec![300_000, 300_000, -300_000, -300_000]);
}

#[test]
fn sine_fill_matches_waveform() {
    let osc = SineOscillator;
    let mut st = osc.create_state();
    let mut buf = vec![0i64; 8];
    osc.fill_samples(&mut st, &mut buf, 1_000, 440_000_000, UNIT);
    for (i, v) in buf.iter().enumerate() {
        let phase = ((i as i64) * 440_000) % UNIT;
        assert_eq!(*v, sine_wave(phase));
    }
    assert_eq!(st.phase, (8 * 440_000) % UNIT);
}

#[test]
fn fill_twice_adds_both_contributions() {
    // additive composition: two calls on one pre-populated buffer give the
    // sum of the two calls made on silent buffers, sample for sample
    let osc = SawOscillator;
    let base = vec![10, -20, 30];

    let mut st_seq = osc.create_state();
    let mut combined = base.clone();
    osc.fill_samples(&mut st_seq, &mut combined, 1_000, 100_000_000, 800_000);
    osc.fill_samples(&mut st_seq, &mut combined, 1_000, 100_000_000, 800_000);

    let mut st_solo = osc.create_state();
    let mut first = vec![0i64; 3];
    osc.fill_samples(&mut st_solo, &mut first, 1_000, 100_000_000, 800_000);
    let mut second = vec![0i64; 3];
    osc.fill_samples(&mut st_solo, &mut second, 1_000, 100_000_000, 800_000);

    for i in 0..3 {
        assert_eq!(combined[i], base[i] + first[i] + second[i]);
    }
}

#[test]
fn harmonic_clears_the_buffer_first() {
    let osc = HarmonicOscillator::new(&[UNIT]);
    let mut st = osc.create_state();
    let mut buf = vec![999_999_999i64; 4];
    osc.fill_samples(&mut st, &mut buf, 1_000, 440_000_000, UNIT);

    // one full-gain partial behaves exactly like a bare sine oscillator on a
    // silent buffer
    let sine = SineOscillator;
    let mut sst = sine.create_state();
    let mut expected = vec![0i64; 4];
    sine.fill_samples(&mut sst, &mut expected, 1_000, 440_000_000, UNIT);
    assert_eq!(buf, expected);
}

#[test]
fn harmonic_layers_partials() {
    // partial k (1-based) sounds at k times the frequency with amplitude
    // entry * amp / k
    let osc = HarmonicOscillator::new(&[UNIT, 600_000]);
    let mut st = osc.create_state();
    let mut buf = vec![0i64; 4];
    osc.fill_samples(&mut st, &mut buf, 1_000, 110_000_000, UNIT);

    let sine = SineOscillator;
    let mut s1 = sine.create_state();
    let mut part1 = vec![0i64; 4];
    sine.fill_samples(&mut s1, &mut part1, 1_000, 110_000_000, UNIT);
    let mut s2 = sine.create_state();
    let mut part2 = vec![0i64; 4];
    sine.fill_samples(&mut s2, &mut part2, 1_000, 220_000_000, 300_000);

    for i in 0..4 {
        assert_eq!(buf[i], part1[i] + part2[i]);
    }
}

#[test]
fn noise_stays_within_amplitude() {
    let osc = NoiseOscillator;
    let mut st = osc.create_state();
    let mut buf = vec![0i64; 256];
    osc.fill_samples(&mut st, &mut buf, 1_000, 440_000_000, 5_000);
    for v in buf.iter() {
        assert!((-5_000..=5_000).contains(v));
    }
}
