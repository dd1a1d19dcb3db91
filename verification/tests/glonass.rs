use hackrf_gnss::glonass::CODE_LEN;

fn glonass_code() -> Vec<f32> {
    hackrf_gnss::glonass::glonass_code().iter().map(|&c| c as f32).collect()
}

fn l1_freq(k: i32) -> f64 {
    hackrf_gnss::glonass::l1_freq(k) as f64
}

fn l2_freq(k: i32) -> f64 {
    hackrf_gnss::glonass::l2_freq(k) as f64
}

#[test]
fn code_is_a_maximal_length_sequence() {
    let c = glonass_code();
    assert_eq!(c.len(), CODE_LEN);
    let ones = c.iter().filter(|&&v| v < 0.0).count();
    assert!(ones == 256 || ones == 255, "m-sequence imbalance: {ones}");
}

#[test]
fn autocorrelation_is_two_valued() {
    let c = glonass_code();
    let peak: f32 = c.iter().map(|&v| v * v).sum();
    assert!((peak - CODE_LEN as f32).abs() < 1e-3);
    for lag in 1..CODE_LEN {
        let r: f32 = (0..CODE_LEN)
            .map(|i| c[i] * c[(i + lag) % CODE_LEN])
            .sum();
        assert!((r + 1.0).abs() < 1e-3, "lag {lag}: autocorr {r} (expected -1)");
    }
}

#[test]
fn fdma_channels_are_spaced_correctly() {
    assert!((l1_freq(0) - 1602.0e6).abs() < 1.0);
    assert!((l1_freq(1) - l1_freq(0) - 0.5625e6).abs() < 1.0);
    assert!((l1_freq(-7) - 1598.0625e6).abs() < 1.0);
    assert!((l2_freq(1) - l2_freq(0) - 0.4375e6).abs() < 1.0);
}
