use polysynth::sine::sine_fixed;

#[test]
fn sine_of_zero_is_zero() {
    assert_eq!(sine_fixed(0), 0);
}

#[test]
fn sine_peaks_at_quarter_cycle() {
    assert_eq!(sine_fixed(250_000_000), 1_000_000);
}

#[test]
fn sine_crosses_zero_at_half_cycle() {
    assert_eq!(sine_fixed(500_000_000), 0);
}

#[test]
fn sine_troughs_at_three_quarter_cycle() {
    assert_eq!(sine_fixed(750_000_000), -1_000_000);
}

#[test]
fn sine_is_odd_around_the_half_cycle() {
    for p in [1_000_000u64, 123_456_789, 250_000_000, 400_000_000] {
        assert_eq!(sine_fixed(p), -sine_fixed(p + 500_000_000));
    }
}

#[test]
fn sine_stays_within_unit_amplitude() {
    let mut p: u64 = 0;
    while p < 1_000_000_000 {
        let v = sine_fixed(p);
        assert!((-1_000_000..=1_000_000).contains(&v));
        p += 7_777_777;
    }
}
