use hackrf_gnss::e5::e5a_code::{rev_reg, CODE_LEN};

const E5AI_FIRST24: [u32; 50] = [
    0x3CEA9D, 0x9D8CF1, 0x45D1C8, 0x7A0133, 0x64D423, 0x23300D, 0x91CEF2, 0xAA82DC,
    0xF2A17D, 0x3D84AE, 0x446D38, 0xC514F2, 0x0C0184, 0x8767E0, 0xCB8EFF, 0x93EBCD,
    0x5D55CE, 0xB19B7C, 0x5805FC, 0xF99EA1, 0xB23CE5, 0x8515E8, 0x436822, 0x30F77B,
    0xA7D629, 0x9BFAC7, 0x18A25B, 0x69A39F, 0x39B27D, 0x454598, 0xF2BC62, 0x9DDBC6,
    0x332827, 0x6E2FCA, 0x22C6D5, 0xE881D9, 0x74C4DB, 0x13AB03, 0x119323, 0x594886,
    0x9F4D89, 0x47A3C0, 0xC9ED53, 0x334994, 0x1B2A30, 0x5513F3, 0x7831C1, 0x30B93A,
    0x84D5B4, 0xA5029C,
];

fn e5ai_code(prn: usize) -> Vec<f32> {
    hackrf_gnss::e5::e5a_code::e5ai_code(prn).iter().map(|&c| c as f32).collect()
}

fn chips_word(c: &[f32], from: usize, n: usize) -> u32 {
    (0..n).fold(0u32, |a, k| a | (((c[from + k] < 0.0) as u32) << (n - 1 - k)))
}

#[test]
fn reproduces_all_50_icd_first24() {
    for prn in 1..=50usize {
        let c = e5ai_code(prn);
        assert_eq!(
            chips_word(&c, 0, 24),
            E5AI_FIRST24[prn - 1],
            "E5a-I PRN {prn} first 24 chips disagree with ICD Table 15"
        );
    }
}

#[test]
fn e5a_code_code_length_and_balance() {
    let c = e5ai_code(1);
    assert_eq!(c.len(), CODE_LEN);
    let ones = c.iter().filter(|&&v| v < 0.0).count() as i64;
    let imbalance = (ones - (CODE_LEN as i64 - ones)).abs();
    assert!(imbalance < 200, "E5a-I PRN1 imbalance {imbalance}");
}

#[test]
fn e5a_code_distinct_prns_are_nearly_orthogonal() {
    let a = e5ai_code(1);
    let b = e5ai_code(7);
    let x: f32 = a.iter().zip(&b).map(|(u, v)| u * v).sum();
    assert!(x.abs() < 0.06 * CODE_LEN as f32, "E5a-I PRN1xPRN7 xcorr {x}");
    let peak: f32 = a.iter().map(|v| v * v).sum();
    assert!((peak - CODE_LEN as f32).abs() < 1.0);
}

#[test]
fn reversed_registers() {
    assert_eq!(rev_reg(0b1, 14), 0b10_0000_0000_0000);
    assert_eq!(rev_reg(0b1101, 4), 0b1011);
    assert_eq!(rev_reg(rev_reg(0o20241, 14), 14), 0o20241);
}
