fn generate_gps_ca_code(prn: usize) -> Vec<f32> {
    hackrf_gnss::dsp_calib::generate_gps_ca_code(prn).iter().map(|&c| c as f32).collect()
}

fn generate_beidou_b1_code(prn: usize) -> Vec<f32> {
    hackrf_gnss::dsp_calib::generate_beidou_b1_code(prn).iter().map(|&c| c as f32).collect()
}

const CA_FIRST10_OCTAL: [u16; 32] = [
    0o1440, 0o1620, 0o1710, 0o1744, 0o1133, 0o1455, 0o1131, 0o1454,
    0o1626, 0o1504, 0o1642, 0o1750, 0o1764, 0o1772, 0o1775, 0o1776,
    0o1156, 0o1467, 0o1633, 0o1715, 0o1746, 0o1763, 0o1063, 0o1706,
    0o1743, 0o1761, 0o1770, 0o1774, 0o1127, 0o1453, 0o1625, 0o1712,
];

fn chips_to_bits(code: &[f32], n: usize) -> u16 {
    let mut v = 0u16;
    for &c in code.iter().take(n) {
        v = (v << 1) | if c < 0.0 { 1 } else { 0 };
    }
    v
}

fn correlate(a: &[f32], b: &[f32], shift: usize) -> i32 {
    let n = a.len();
    let mut acc = 0i32;
    for i in 0..n {
        acc += (a[i] * b[(i + shift) % n]) as i32;
    }
    acc
}

#[test]
fn gps_ca_first_ten_chips_match_is_gps_200() {
    for prn in 1..=32 {
        let code = generate_gps_ca_code(prn);
        assert_eq!(code.len(), 1023, "PRN {} wrong length", prn);
        let got = chips_to_bits(&code, 10);
        let want = CA_FIRST10_OCTAL[prn - 1];
        assert_eq!(
            got, want,
            "PRN {}: first 10 chips are {:#o}, IS-GPS-200 Table 3-I says {:#o}",
            prn, got, want
        );
    }
}

#[test]
fn gps_ca_codes_are_balanced() {
    for prn in 1..=32 {
        let code = generate_gps_ca_code(prn);
        let ones = code.iter().filter(|&&c| c < 0.0).count();
        assert_eq!(ones, 512, "PRN {} has {} ones, expected 512", prn, ones);
    }
}

#[test]
fn gps_ca_autocorrelation_is_three_valued() {
    for prn in [1usize, 5, 19, 32] {
        let code = generate_gps_ca_code(prn);
        assert_eq!(correlate(&code, &code, 0), 1023);
        for shift in 1..1023 {
            let c = correlate(&code, &code, shift);
            assert!(
                c == -65 || c == -1 || c == 63,
                "PRN {} autocorrelation at shift {} is {}, not one of -65/-1/63",
                prn, shift, c
            );
        }
    }
}

#[test]
fn gps_ca_cross_correlation_is_bounded() {
    for (a, b) in [(1usize, 2usize), (1, 19), (5, 32), (24, 25)] {
        let ca = generate_gps_ca_code(a);
        let cb = generate_gps_ca_code(b);
        for shift in 0..1023 {
            let c = correlate(&ca, &cb, shift);
            assert!(
                c == -65 || c == -1 || c == 63,
                "PRN {} x PRN {} at shift {} is {}, outside the Gold bound",
                a, b, shift, c
            );
        }
    }
}

#[test]
fn gps_ca_out_of_range_returns_zeros() {
    for prn in [0usize, 33, 100] {
        let code = generate_gps_ca_code(prn);
        assert_eq!(code.len(), 1023);
        assert!(code.iter().all(|&v| v == 0.0), "PRN {} should be all zeros", prn);
    }
}

#[test]
fn beidou_b1_has_the_right_shape_and_low_correlation() {
    for prn in [1usize, 12, 37] {
        let code = generate_beidou_b1_code(prn);
        assert_eq!(code.len(), 2046);
        assert!(code.iter().all(|&v| v == 1.0 || v == -1.0));
        let dc = code.iter().sum::<f32>().abs();
        assert!(dc < 64.0, "PRN {} has DC imbalance {}", prn, dc);
        assert_eq!(correlate(&code, &code, 0), 2046);
        let worst = (1..2046)
            .map(|s| correlate(&code, &code, s).abs())
            .max()
            .unwrap();
        assert!(
            worst < 300,
            "PRN {} worst off-peak autocorrelation {} is too high for a Gold code",
            prn, worst
        );
    }
    assert_ne!(generate_beidou_b1_code(1), generate_beidou_b1_code(37));
}

#[test]
fn beidou_b1_out_of_range_returns_zeros() {
    for prn in [0usize, 38] {
        let code = generate_beidou_b1_code(prn);
        assert_eq!(code.len(), 2046);
        assert!(code.iter().all(|&v| v == 0.0));
    }
}
