use hackrf_gnss::beidou::CODE_LEN;

fn b3i_code(prn: usize) -> Vec<f32> {
    hackrf_gnss::beidou::b3i_code(prn).iter().map(|&c| c as f32).collect()
}

fn first24(prn: usize) -> u32 {
    let c = b3i_code(prn);
    let mut v = 0u32;
    for i in 0..24 {
        v = (v << 1) | ((c[i] < 0.0) as u32);
    }
    v
}

#[test]
fn matches_reference_first24_chips() {
    for (prn, want) in [
        (1, 0o51340u32),
        (2, 0o12700750),
        (6, 0o66330754),
        (63, 0o43356551),
    ] {
        assert_eq!(first24(prn), want, "PRN {prn} first-24 mismatch");
    }
}

#[test]
fn length_and_near_balance() {
    for prn in [1usize, 19, 63] {
        let c = b3i_code(prn);
        assert_eq!(c.len(), CODE_LEN);
        let ones = c.iter().filter(|&&v| v < 0.0).count() as i64;
        let imbalance = (2 * ones - CODE_LEN as i64).abs();
        assert!(imbalance < 300, "PRN {prn} imbalance {imbalance}");
    }
}

#[test]
fn distinct_prns_are_low_cross_correlation() {
    let a = b3i_code(1);
    let b = b3i_code(6);
    let x: f32 = a.iter().zip(&b).map(|(u, v)| u * v).sum();
    assert!(x.abs() < 0.08 * CODE_LEN as f32, "PRN1xPRN6 xcorr {x}");
    let peak: f32 = a.iter().map(|v| v * v).sum();
    assert!((peak - CODE_LEN as f32).abs() < 1.0);
}

#[test]
fn register_loads_lowest_bit_first() {
    let r = hackrf_gnss::beidou::load(0o12777);
    assert_eq!(r, vec![1, 1, 1, 1, 1, 1, 1, 1, 1, 0, 1, 0, 1]);
}
