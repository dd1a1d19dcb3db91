use hackrf_gnss::inmarsat::{
    conv_encode, crc16, deinterleave, interleave, scramble, scrambler_seq, traceback, trans_out,
};

fn descramble_soft(soft: &[f64], seed: u16) -> Vec<f64> {
    let seq = scrambler_seq(soft.len(), seed);
    soft.iter().zip(&seq).map(|(&v, &b)| if b == 1 { -v } else { v }).collect()
}

fn viterbi_soft(soft: &[f64]) -> Vec<u8> {
    let n = soft.len() / 2;
    let mut pm = vec![-1e18f64; 64];
    pm[0] = 0.0;
    let mut dec = vec![[0u8; 64]; n];
    for k in 0..n {
        let mut next = vec![-1e18f64; 64];
        for ns in 0..64 {
            for which in 0..2 {
                let ps = ((ns << 1) & 63) | which;
                let (a, b) = trans_out(ns, which);
                let m = pm[ps] + a as f64 * soft[2 * k] + b as f64 * soft[2 * k + 1];
                if m > next[ns] {
                    next[ns] = m;
                    dec[k][ns] = which as u8;
                }
            }
        }
        pm = next;
    }
    traceback(&dec)
}

fn payload() -> Vec<u8> {
    let mut b: Vec<u8> = (0..90).map(|i| ((i * 37 + 11) % 7 % 2) as u8).collect();
    b.extend([0, 0, 0, 0, 0, 0]);
    b
}

#[test]
fn viterbi_round_trips_the_convolutional_code() {
    let bits = payload();
    let coded = conv_encode(&bits);
    let soft: Vec<f64> = coded.iter().map(|&c| 1.0 - 2.0 * c as f64).collect();
    let decoded = viterbi_soft(&soft);
    assert_eq!(decoded, bits, "noiseless Viterbi must be exact");
}

#[test]
fn viterbi_corrects_soft_noise() {
    let bits = payload();
    let coded = conv_encode(&bits);
    let mut soft: Vec<f64> =
        coded.iter().enumerate().map(|(i, &c)| (1.0 - 2.0 * c as f64) * (0.6 + 0.1 * ((i % 3) as f64))).collect();
    for k in [5usize, 33, 71] {
        soft[k] = -soft[k];
    }
    assert_eq!(viterbi_soft(&soft), bits, "should correct sparse soft errors");
}

#[test]
fn scrambler_is_involutive_and_matches_soft() {
    let bits = payload();
    let sc = scramble(&bits, 0x7FFF);
    assert_ne!(sc, bits);
    assert_eq!(scramble(&sc, 0x7FFF), bits, "double scramble = identity");
    let soft: Vec<f64> = sc.iter().map(|&c| 1.0 - 2.0 * c as f64).collect();
    let un = descramble_soft(&soft, 0x7FFF);
    let hard: Vec<u8> = un.iter().map(|&v| (v < 0.0) as u8).collect();
    assert_eq!(hard, bits);
}

#[test]
fn interleaver_round_trips() {
    let x: Vec<u16> = (0..24).collect();
    let il = interleave(&x, 4, 6);
    assert_eq!(deinterleave(&il, 4, 6), x);
    assert_ne!(il, x);
}

#[test]
fn crc16_ccitt_false_known_vector() {
    assert_eq!(crc16(b"123456789", 0xFFFF), 0x29B1);
}

#[test]
fn full_chain_encode_scramble_interleave_and_back() {
    let bits = payload();
    let coded = conv_encode(&bits);
    let scrambled = scramble(&coded, 0x7FFF);
    let interleaved = interleave(&scrambled, 8, 24);
    let soft: Vec<f64> = interleaved.iter().map(|&c| 1.0 - 2.0 * c as f64).collect();
    let de = deinterleave(&soft, 8, 24);
    let un = descramble_soft(&de, 0x7FFF);
    let out = viterbi_soft(&un);
    assert_eq!(out, bits, "full codec chain must round-trip");
}

#[test]
fn message_with_its_check_value_checks_to_zero() {
    let mut m = b"123456789".to_vec();
    let c = crc16(&m, 0xFFFF);
    m.push((c >> 8) as u8);
    m.push((c & 0xFF) as u8);
    assert_eq!(crc16(&m, 0xFFFF), 0);
}

#[test]
fn scrambler_starts_from_its_seed() {
    assert_eq!(scrambler_seq(4, 0x7FFF).len(), 4);
    assert_ne!(scrambler_seq(64, 0x7FFF), scrambler_seq(64, 0x0001));
}
