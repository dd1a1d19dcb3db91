use hackrf_gnss::gps::ca_code::CA_LEN;

fn gps_ca(prn: usize) -> Vec<f32> {
    hackrf_gnss::gps::ca_code::gps_ca(prn).iter().map(|&c| c as f32).collect()
}

#[test]
fn first_ten_chips_match_python_oracle() {
    let want: [(usize, [u8; 10]); 4] = [
        (1, [1, 1, 0, 0, 1, 0, 0, 0, 0, 0]),
        (2, [1, 1, 1, 0, 0, 1, 0, 0, 0, 0]),
        (19, [1, 1, 1, 0, 0, 1, 1, 0, 1, 1]),
        (32, [1, 1, 1, 1, 0, 0, 1, 0, 1, 0]),
    ];
    for (prn, bits) in want {
        let c = gps_ca(prn);
        let got: Vec<u8> = c[..10].iter().map(|&v| if v < 0.0 { 1 } else { 0 }).collect();
        assert_eq!(got, bits.to_vec(), "PRN {prn}");
    }
}

#[test]
fn all_prns_are_balanced_and_full_length() {
    for prn in 1..=32 {
        let c = gps_ca(prn);
        assert_eq!(c.len(), CA_LEN);
        let ones = c.iter().filter(|&&v| v < 0.0).count();
        assert_eq!(ones, 512, "PRN {prn} imbalance");
    }
}

#[test]
fn codes_are_distinct() {
    let a = gps_ca(1);
    let b = gps_ca(2);
    assert_ne!(a, b);
}
