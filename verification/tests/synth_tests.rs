use polysynth::envelope::EnvState;
use polysynth::synth::Synthesizer;

#[test]
fn note_off_without_voice_is_a_no_op() {
    let mut s = Synthesizer::new(44100);
    assert_eq!(s.voice_count(), 0);
    s.note_off(60);
    assert_eq!(s.voice_count(), 0);
    s.note_on(61, 277_180, 900_000);
    s.note_off(60);
    assert_eq!(s.voice_count(), 1);
    assert!(s.voice(61).is_some());
}

#[test]
fn note_on_replaces_the_voice_at_a_key() {
    let mut s = Synthesizer::new(44100);
    s.note_on(60, 261_630, 1_000_000);
    for _ in 0..500 {
        s.generate_sample();
    }
    let before = s.voice(60).unwrap();
    assert!(before.phase != 0);
    s.note_on(60, 300_000, 800_000);
    assert_eq!(s.voice_count(), 1);
    let v = s.voice(60).unwrap();
    assert_eq!(v.freq, 300_000);
    assert_eq!(v.velocity, 800_000);
    assert_eq!(v.phase, 0);
    assert!(matches!(v.envelope.state, EnvState::Attack));
    assert_eq!(v.envelope.value, 0);
}

#[test]
fn silent_synthesizer_outputs_exact_zero() {
    let mut s = Synthesizer::new(44100);
    for _ in 0..200 {
        assert_eq!(s.generate_sample(), 0);
    }
    assert_eq!(s.voice_count(), 0);
}

#[test]
fn first_samples_of_one_note_are_exact() {
    let mut a = Synthesizer::new(44100);
    a.note_on(60, 261_630, 1_000_000);
    assert_eq!(a.generate_sample(), 25);
    let mut b = Synthesizer::new(44100);
    b.note_on(64, 329_630, 1_000_000);
    assert_eq!(b.generate_sample(), 31);
}

#[test]
fn oscillator_completes_a_full_cycle_exactly() {
    // 441 Hz at 44100 Hz: one cycle is exactly 100 ticks.
    let mut s = Synthesizer::new(44100);
    s.note_on(69, 441_000, 1_000_000);
    for _ in 0..50 {
        s.generate_sample();
    }
    assert_eq!(s.voice(69).unwrap().phase, 500_000_000);
    for _ in 0..50 {
        s.generate_sample();
    }
    assert_eq!(s.voice(69).unwrap().phase, 0);
}

#[test]
fn released_voice_is_removed_once_it_decays() {
    let mut s = Synthesizer::new(44100);
    s.note_on(60, 261_630, 1_000_000);
    for _ in 0..10000 {
        s.generate_sample();
    }
    assert_eq!(s.voice_count(), 1);
    s.note_off(60);
    for _ in 0..50000 {
        s.generate_sample();
    }
    assert_eq!(s.voice_count(), 0);
    // with the voice gone the shared state drains back to silence
    for _ in 0..2000 {
        s.generate_sample();
    }
    assert_eq!(s.generate_sample(), 0);
}

#[test]
fn two_overlapping_notes_superpose() {
    let mut a = Synthesizer::new(44100);
    a.note_on(60, 261_630, 1_000_000);
    let out_a = a.generate_sample();
    let mut b = Synthesizer::new(44100);
    b.note_on(64, 329_630, 1_000_000);
    let out_b = b.generate_sample();
    let mut c = Synthesizer::new(44100);
    c.note_on(60, 261_630, 1_000_000);
    c.note_on(64, 329_630, 1_000_000);
    let out_c = c.generate_sample();
    assert!(out_a > 0 && out_b > 0);
    assert!(out_c > out_a);
    assert!(out_c > out_b);
    // the mix is the sum of the two, up to rounding in the shared chain
    assert!((out_c - (out_a + out_b)).abs() <= 5);
}

#[test]
fn many_notes_mix_without_surprises() {
    let mut s = Synthesizer::new(44100);
    for k in 0..=255u8 {
        s.note_on(k, 100_000 + (k as u64) * 30_000, 1_000_000);
    }
    assert_eq!(s.voice_count(), 256);
    for _ in 0..100 {
        let out = s.generate_sample();
        assert!(out.abs() <= 600_000_000);
    }
    assert_eq!(s.voice_count(), 256);
}

#[test]
fn degenerate_inputs_are_accepted() {
    // frequency zero and velocity zero are processed without error
    let mut s = Synthesizer::new(44100);
    s.note_on(0, 0, 0);
    s.note_on(255, 10_000_000_000, 0);
    assert_eq!(s.voice_count(), 2);
    for _ in 0..100 {
        s.generate_sample();
    }
    let v = s.voice(0).unwrap();
    assert_eq!(v.phase, 0);
}
