use phonia::dsp::next_pow2;
use std::f64::consts::PI;

#[test]
fn next_pow2_boundaries() {
    assert_eq!(next_pow2(0), 1);
    assert_eq!(next_pow2(1), 1);
    assert_eq!(next_pow2(2), 2);
    assert_eq!(next_pow2(3), 4);
    assert_eq!(next_pow2(1024), 1024);
    assert_eq!(next_pow2(1025), 2048);
}

#[test]
fn next_pow2_of_a_power_is_itself_and_one_past_doubles() {
    for shift in 1..20 {
        let p = 1usize << shift;
        assert_eq!(next_pow2(p), p);
        assert_eq!(next_pow2(p + 1), 2 * p);
        assert_eq!(next_pow2(p - 1), if shift == 1 { 1 } else { p });
    }
}

#[test]
fn coefficient_matches_worked_example() {
    // Praat manual worked example: 48.47 Hz at 10 kHz → a ≈ 0.97.
    let a = (-2.0 * PI * 48.47 / 10_000.0).exp();
    assert!((a - 0.97).abs() < 5e-4, "a = {a}");
}

#[test]
fn gaussian_minus3db_bandwidth() {
    // The magnitude response of exp(−t²/2σ²) is exp(−σ²ω²/2) with
    // σ = L/(2√6); its full −3 dB width is √(ln2)·2√6/(π·L).
    let l = 1.0_f64;
    let sigma = l / (2.0 * 6.0_f64.sqrt());
    let f_half = (2.0_f64.ln()).sqrt() / (2.0 * PI * sigma);
    let bandwidth = 2.0 * f_half;
    assert!((bandwidth - 1.2982804 / l).abs() < 1e-6, "bw {bandwidth}");
}
