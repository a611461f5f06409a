use polysynth::envelope::{EnvState, Envelope};

#[test]
fn new_envelope_is_idle_and_silent() {
    let mut e = Envelope::new(44100);
    assert!(matches!(e.state, EnvState::Idle));
    assert_eq!(e.value, 0);
    assert_eq!(e.process(), 0);
    assert!(matches!(e.state, EnvState::Idle));
}

#[test]
fn attack_rises_by_exact_steps() {
    // At 1000 Hz the 2 ms attack spans 2 samples: a step of 500_000.
    let mut e = Envelope::new(1000);
    assert_eq!(e.attack_step, 500_000);
    e.trigger();
    assert!(matches!(e.state, EnvState::Attack));
    assert_eq!(e.value, 0);
    assert_eq!(e.process(), 500_000);
    assert!(matches!(e.state, EnvState::Attack));
    assert_eq!(e.process(), 1_000_000);
    assert!(matches!(e.state, EnvState::Decay));
}

#[test]
fn decay_falls_to_sustain_and_holds() {
    // At 1000 Hz the 150 ms decay spans 150 samples: a step of 3_333.
    let mut e = Envelope::new(1000);
    assert_eq!(e.decay_step, 3_333);
    e.trigger();
    e.process();
    e.process();
    assert_eq!(e.process(), 996_667);
    let mut guard = 0;
    while matches!(e.state, EnvState::Decay) {
        let v = e.process();
        assert!(v >= 500_000);
        guard += 1;
        assert!(guard < 1000);
    }
    assert!(matches!(e.state, EnvState::Sustain));
    assert_eq!(e.value, 500_000);
    for _ in 0..100 {
        assert_eq!(e.process(), 500_000);
    }
}

#[test]
fn immediate_release_idles_on_next_tick() {
    let mut e = Envelope::new(44100);
    e.trigger();
    e.release();
    assert_eq!(e.process(), 0);
    assert!(matches!(e.state, EnvState::Idle));
    assert_eq!(e.value, 0);
}

#[test]
fn release_decays_strictly_to_exact_zero() {
    let mut e = Envelope::new(44100);
    e.trigger();
    // run to sustain
    for _ in 0..10000 {
        e.process();
    }
    assert!(matches!(e.state, EnvState::Sustain));
    e.release();
    assert!(matches!(e.state, EnvState::Release));
    let mut prev = e.value;
    let mut ticks: i64 = 0;
    while !matches!(e.state, EnvState::Idle) {
        let v = e.process();
        assert!(v < prev || matches!(e.state, EnvState::Idle));
        prev = v;
        ticks += 1;
        // bounded by the starting amplitude plus one
        assert!(ticks <= 1_000_001);
    }
    assert_eq!(e.value, 0);
    assert_eq!(e.process(), 0);
}

#[test]
fn release_from_idle_is_a_no_op() {
    let mut e = Envelope::new(44100);
    e.release();
    assert!(matches!(e.state, EnvState::Idle));
    assert_eq!(e.process(), 0);
}

#[test]
fn amplitude_always_within_unit_interval() {
    let mut e = Envelope::new(32);
    let mut check = |e: &mut Envelope| {
        for _ in 0..200 {
            let v = e.process();
            assert!((0..=1_000_000).contains(&v));
        }
    };
    check(&mut e);
    e.trigger();
    check(&mut e);
    e.release();
    check(&mut e);
    e.trigger();
    e.trigger();
    check(&mut e);
    e.release();
    e.release();
    check(&mut e);
    e.trigger();
    e.process();
    e.release();
    check(&mut e);
}
