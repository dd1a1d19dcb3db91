use hackrf_gnss::gps::sbas_code::{SBAS_HI, SBAS_LO};

fn sbas_code(prn: usize) -> Vec<f32> {
    hackrf_gnss::gps::sbas_code::sbas_code(prn).iter().map(|&c| c as f32).collect()
}

#[test]
fn sbas_codes_are_balanced_gold_codes() {
    for prn in SBAS_LO..=SBAS_HI {
        let c = sbas_code(prn);
        assert_eq!(c.len(), 1023);
        let ones = c.iter().filter(|&&v| v < 0.0).count();
        assert_eq!(ones, 512, "PRN {prn} not balanced ({ones} ones)");
    }
}

#[test]
fn first_chips_match_python_oracle() {
    let want: [(usize, [u8; 12]); 4] = [
        (120, [0, 1, 1, 0, 1, 1, 1, 0, 0, 1, 1, 0]),
        (131, [1, 0, 1, 0, 0, 1, 0, 1, 1, 0, 0, 1]),
        (133, [0, 0, 0, 0, 1, 0, 0, 1, 1, 0, 1, 1]),
        (138, [1, 0, 1, 1, 0, 1, 0, 1, 1, 1, 0, 1]),
    ];
    for (prn, bits) in want {
        let c = sbas_code(prn);
        let got: Vec<u8> = c[..12].iter().map(|&v| if v < 0.0 { 1 } else { 0 }).collect();
        assert_eq!(got, bits.to_vec(), "SBAS PRN {prn}");
    }
}
