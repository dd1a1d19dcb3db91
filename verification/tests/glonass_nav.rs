use hackrf_gnss::glonass_nav::{
    checksum_sets, decode_strings, demod_string, hamming_checksums, hamming_verify, parse_string, phase_windows,
    relative_decode, search_bins, voted_bits, EphCollector, Hamming, StringData, STRING_BITS, STRING_CHIPS, TIME_MARK,
};

struct Rng(u64);

impl Rng {
    fn next(&mut self) -> u64 {
        self.0 ^= self.0 << 13;
        self.0 ^= self.0 >> 7;
        self.0 ^= self.0 << 17;
        self.0
    }
}

fn set_check_bits(bits: &mut [u8; STRING_BITS]) {
    let sets = checksum_sets();
    for (i, set) in sets.iter().enumerate() {
        let mut v = 0u8;
        for &p in set {
            v ^= bits[p - 1];
        }
        bits[i] = v;
    }
    let mut v = 0u8;
    for p in 1..=7 {
        v ^= bits[p - 1];
    }
    for p in 9..=STRING_BITS {
        v ^= bits[p - 1];
    }
    bits[7] = v;
}

fn random_string(rng: &mut Rng, m: u8) -> [u8; STRING_BITS] {
    let mut bits = [0u8; STRING_BITS];
    for p in 9..=STRING_BITS {
        bits[p - 1] = (rng.next() & 1) as u8;
    }
    bits[84] = 0;
    for (i, p) in [84usize, 83, 82, 81].iter().enumerate() {
        bits[p - 1] = (m >> (3 - i)) & 1;
    }
    set_check_bits(&mut bits);
    bits
}

fn modulate_string(bits: &[u8; STRING_BITS], prev: f64) -> (Vec<f64>, f64) {
    let mut chips = vec![0.0f64; STRING_CHIPS];
    let mut state = prev;
    for i in 0..STRING_BITS {
        let pos = STRING_BITS - i;
        let d = bits[pos - 1];
        let r = if d == 1 { -state } else { state };
        chips[2 * i] = r;
        chips[2 * i + 1] = -r;
        state = r;
    }
    for j in 0..30 {
        chips[170 + j] = 2.0 * TIME_MARK[j] as f64 - 1.0;
    }
    let last = chips[199];
    (chips, last)
}

fn put_sm(b: &mut [u8; STRING_BITS], hi: usize, lo: usize, lsb: f64, val: f64) {
    let n = hi - lo + 1;
    let mag = (val.abs() / lsb).round() as u64;
    assert!(mag < (1u64 << (n - 1)), "field overflow");
    let raw = (if val < 0.0 { 1u64 << (n - 1) } else { 0 }) | mag;
    for p in lo..=hi {
        b[p - 1] = ((raw >> (p - lo)) & 1) as u8;
    }
}

fn put_u(b: &mut [u8; STRING_BITS], hi: usize, lo: usize, val: u64) {
    for p in lo..=hi {
        b[p - 1] = ((val >> (p - lo)) & 1) as u8;
    }
}

#[test]
fn hamming_accepts_valid_strings() {
    let mut rng = Rng(0x1234_5678_9abc_def0);
    for m in 1..=15u8 {
        let mut b = random_string(&mut rng, m);
        assert_eq!(hamming_verify(&mut b), Hamming::Clean, "string m={m}");
    }
}

#[test]
fn hamming_corrects_every_single_error() {
    let mut rng = Rng(0xdead_beef_cafe_f00d);
    let orig = random_string(&mut rng, 1);
    for pos in 1..=STRING_BITS {
        let mut b = orig;
        b[pos - 1] ^= 1;
        let st = hamming_verify(&mut b);
        match st {
            Hamming::OkCheckBit => assert!(pos <= 7, "check-bit case at data pos {pos}"),
            Hamming::Corrected(p) => {
                assert_eq!(p, pos);
                assert_eq!(b, orig, "correction at pos {pos} must restore the string");
            }
            other => panic!("single error at pos {pos} not handled: {other:?}"),
        }
    }
}

#[test]
fn hamming_detects_double_errors() {
    let mut rng = Rng(0x0bad_c0de_1357_9bdf);
    let orig = random_string(&mut rng, 3);
    for p1 in 1..=STRING_BITS {
        for p2 in (p1 + 1)..=STRING_BITS {
            let mut b = orig;
            b[p1 - 1] ^= 1;
            b[p2 - 1] ^= 1;
            assert_eq!(
                hamming_verify(&mut b),
                Hamming::Fail,
                "double error at {p1},{p2} must be detected"
            );
        }
    }
}

fn eph_strings(pos_km: [f64; 3], vel_kms: [f64; 3], acc_kms2: [f64; 3]) -> Vec<[u8; STRING_BITS]> {
    let mut out = Vec::new();
    let mut b = [0u8; STRING_BITS];
    put_u(&mut b, 84, 81, 1);
    put_sm(&mut b, 35, 9, 2f64.powi(-11), pos_km[0]);
    put_sm(&mut b, 64, 41, 2f64.powi(-20), vel_kms[0]);
    put_sm(&mut b, 40, 36, 2f64.powi(-30), acc_kms2[0]);
    put_u(&mut b, 76, 72, 14);
    put_u(&mut b, 71, 66, 25);
    put_u(&mut b, 65, 65, 0);
    set_check_bits(&mut b);
    out.push(b);
    let mut b = [0u8; STRING_BITS];
    put_u(&mut b, 84, 81, 2);
    put_sm(&mut b, 35, 9, 2f64.powi(-11), pos_km[1]);
    put_sm(&mut b, 64, 41, 2f64.powi(-20), vel_kms[1]);
    put_sm(&mut b, 40, 36, 2f64.powi(-30), acc_kms2[1]);
    put_u(&mut b, 76, 70, 57);
    set_check_bits(&mut b);
    out.push(b);
    let mut b = [0u8; STRING_BITS];
    put_u(&mut b, 84, 81, 3);
    put_sm(&mut b, 35, 9, 2f64.powi(-11), pos_km[2]);
    put_sm(&mut b, 64, 41, 2f64.powi(-20), vel_kms[2]);
    put_sm(&mut b, 40, 36, 2f64.powi(-30), acc_kms2[2]);
    put_sm(&mut b, 79, 69, 2f64.powi(-40), -3.0e-10);
    set_check_bits(&mut b);
    out.push(b);
    let mut b = [0u8; STRING_BITS];
    put_u(&mut b, 84, 81, 4);
    put_sm(&mut b, 80, 59, 2f64.powi(-30), 1.5e-6);
    put_u(&mut b, 53, 49, 2);
    put_u(&mut b, 33, 30, 0);
    put_u(&mut b, 26, 16, 731);
    put_u(&mut b, 15, 11, 9);
    set_check_bits(&mut b);
    out.push(b);
    out
}

#[test]
fn ephemeris_assembles_from_strings_1_to_4() {
    let pos = [11_000.0, -12_000.0, 20_000.0];
    let vel = [1.5, 2.8, -2.1];
    let acc = [1.0e-9, -2.0e-9, 0.5e-9];
    let mut col = EphCollector::default();
    for b in eph_strings(pos, vel, acc) {
        let s = parse_string(b).expect("synthetic string must pass Hamming");
        col.push(&s);
    }
    let e = col.ephemeris().expect("ephemeris must assemble");
    let e_pos = [e.x, e.y, e.z].map(|v| v as f64 * 2f64.powi(-11) * 1e3);
    let e_vel = [e.vx, e.vy, e.vz].map(|v| v as f64 * 2f64.powi(-20) * 1e3);
    for i in 0..3 {
        assert!((e_pos[i] - pos[i] * 1e3).abs() < 1e3 * 2f64.powi(-11), "pos[{i}]");
        assert!((e_vel[i] - vel[i] * 1e3).abs() < 1e3 * 2f64.powi(-20), "vel[{i}]");
    }
    assert_eq!(e.slot, 9);
    assert_eq!(e.nt, 731);
    assert_eq!(e.tb_min, 855);
    assert_eq!(e.tk_s as f64, 14.0 * 3600.0 + 25.0 * 60.0);
    assert!((e.tau_n as f64 * 2f64.powi(-30) - 1.5e-6).abs() < 2f64.powi(-30));
    assert!((e.gamma_n as f64 * 2f64.powi(-40) - -3.0e-10).abs() < 2f64.powi(-40));
    assert!((e_pos.iter().map(|v| v * v).sum::<f64>().sqrt() - 25_787_554.7).abs() < 5e3);
}

#[test]
fn check_sets_follow_the_message_definition() {
    let sets = checksum_sets();
    assert_eq!(sets.len(), 7);
    assert_eq!(
        sets[0],
        vec![
            9, 10, 12, 13, 15, 17, 19, 20, 22, 24, 26, 28, 30, 32, 34, 35, 37, 39, 41, 43, 45, 47, 49, 51, 53, 55, 57,
            59, 61, 63, 65, 66, 68, 70, 72, 74, 76, 78, 80, 82, 84,
        ]
    );
    assert_eq!(
        sets[1],
        vec![
            9, 11, 12, 14, 15, 18, 19, 21, 22, 25, 26, 29, 30, 33, 34, 36, 37, 40, 41, 44, 45, 48, 49, 52, 53, 56, 57,
            60, 61, 64, 65, 67, 68, 71, 72, 75, 76, 79, 80, 83, 84,
        ]
    );
    let ranges = |rs: &[(usize, usize)]| -> Vec<usize> { rs.iter().flat_map(|&(a, b)| a..=b).collect() };
    assert_eq!(
        sets[2],
        ranges(&[
            (10, 12), (16, 19), (23, 26), (31, 34), (38, 41), (46, 49), (54, 57), (62, 65), (69, 72), (77, 80), (85, 85),
        ])
    );
    assert_eq!(sets[3], ranges(&[(13, 19), (27, 34), (42, 49), (58, 65), (73, 80)]));
    assert_eq!(sets[4], ranges(&[(20, 34), (50, 65), (81, 85)]));
    assert_eq!(sets[5], ranges(&[(35, 65)]));
    assert_eq!(sets[6], ranges(&[(66, 85)]));
}

#[test]
fn checks_of_one_bit_are_its_hamming_number() {
    let mut b = [0u8; STRING_BITS];
    assert_eq!(hamming_checksums(&b), (0, 0));
    b[8] = 1;
    assert_eq!(hamming_checksums(&b), (3, 1));
    b[84] = 1;
    assert_eq!(hamming_checksums(&b), (3 ^ 84, 0));
    assert_eq!(hamming_verify(&mut b), Hamming::Fail);
}

#[test]
fn checks_of_strings_add_up() {
    let mut rng = Rng(0x1357_9bdf_2468_ace1);
    let a = random_string(&mut rng, 3);
    let mut b = random_string(&mut rng, 5);
    let sum = |a: &[u8; STRING_BITS], b: &[u8; STRING_BITS]| {
        let mut s = *a;
        for (x, y) in s.iter_mut().zip(b) {
            *x ^= y;
        }
        s
    };
    assert_eq!(hamming_checksums(&sum(&a, &b)), (0, 0));
    b[40] ^= 1;
    assert_eq!(hamming_checksums(&sum(&a, &b)), hamming_checksums(&b));
}

#[test]
fn a_string_without_a_number_is_refused() {
    let b = [0u8; STRING_BITS];
    assert!(parse_string(b).is_none());
}

#[test]
fn relative_code_round_trips() {
    let mut rng = Rng(0x2468_ace0_1357_9bdf);
    let bits = random_string(&mut rng, 7);
    let (chips, _) = modulate_string(&bits, -1.0);
    assert_eq!(chips.len(), STRING_CHIPS);
    let mut signs = [false; STRING_BITS];
    for i in 0..STRING_BITS {
        signs[i] = chips[2 * i] - chips[2 * i + 1] >= 0.0;
    }
    assert_eq!(relative_decode(&signs, Some(false)), bits);
    let inverted = signs.map(|s| !s);
    assert_eq!(relative_decode(&inverted, Some(true)), bits);
    let mut agree = [true; STRING_BITS];
    for i in 1..STRING_BITS {
        agree[i] = signs[i] == signs[i - 1];
    }
    let voted = voted_bits(&agree);
    assert_eq!(&voted[..84], &bits[..84]);
    assert_eq!(voted[84], 0);
}

#[test]
fn implausible_or_unhealthy_orbits_give_no_ephemeris() {
    let vel = [1.5, 2.8, -2.1];
    let acc = [0.0; 3];
    let collect = |pos: [f64; 3], vel: [f64; 3], ln: u64| {
        let mut col = EphCollector::default();
        assert!(col.ephemeris().is_none());
        for (k, mut b) in eph_strings(pos, vel, acc).into_iter().enumerate() {
            if k == 2 {
                put_u(&mut b, 65, 65, ln);
                set_check_bits(&mut b);
            }
            col.push(&parse_string(b).unwrap());
        }
        col.ephemeris().is_some()
    };
    assert!(collect([11_000.0, -12_000.0, 20_000.0], vel, 0));
    assert!(!collect([11_000.0, -12_000.0, 20_000.0], vel, 1));
    assert!(!collect([11_000.0, -12_000.0, 1_000.0], vel, 0));
    assert!(collect([23_000.0, 0.0, 0.0], [3.0, 0.0, 0.0], 0));
    assert!(!collect([28_000.0, 0.0, 0.0], [3.0, 0.0, 0.0], 0));
    assert!(!collect([23_000.0, 0.0, 0.0], [2.999, 0.0, 0.0], 0));
}

#[test]
fn the_latest_string_of_a_number_counts() {
    let strings = eph_strings([11_000.0, -12_000.0, 20_000.0], [1.5, 2.8, -2.1], [0.0; 3]);
    let other = eph_strings([11_500.0, -12_000.0, 20_000.0], [1.5, 2.8, -2.1], [0.0; 3]);
    let mut col = EphCollector::default();
    for b in strings {
        col.push(&parse_string(b).unwrap());
    }
    col.push(&parse_string(other[0]).unwrap());
    assert_eq!(col.ephemeris().unwrap().x, 11_500 * 2048);
    match parse_string(other[0]).unwrap().data {
        StringData::S1 { x, .. } => assert_eq!(x, 11_500 * 2048),
        _ => panic!(),
    }
}

#[test]
fn windows_and_bins() {
    assert_eq!(phase_windows(10, 8), vec![0, 2]);
    assert_eq!(phase_windows(7, 8), Vec::<usize>::new());
    assert_eq!(phase_windows(16, 8), vec![0, 2, 4, 6, 8]);
    assert_eq!(search_bins(16, 2), vec![0, 1, 2, 14, 15]);
}

#[test]
fn differences_that_are_no_numbers_are_not_positive() {
    let one = 1.0f64.to_bits();
    let idle = demod_string(&vec![one; 200], 0, None).unwrap();
    assert!(idle.iter().all(|&b| b == 0));
    for pair in [[f64::NAN, 1.0], [1.0, f64::NAN], [f64::INFINITY; 2], [f64::NEG_INFINITY; 2], [1.0, 2.0]] {
        let mut chips = vec![one; 200];
        chips[2] = pair[0].to_bits();
        chips[3] = pair[1].to_bits();
        let bits = demod_string(&chips, 0, Some(f64::NAN.to_bits())).unwrap();
        let set: Vec<usize> = (0..85).filter(|&k| bits[k] == 1).collect();
        assert_eq!(set, vec![82, 83, 84], "{pair:?}");
    }
}

#[test]
fn strings_are_read_from_chips() {
    let mut rng = Rng(0xabcd_1234_5678_9abc);
    let strs: Vec<[u8; STRING_BITS]> = (1..=3).map(|m| random_string(&mut rng, m)).collect();
    let lead = 37usize;
    let mut chips = vec![0.11f64; lead];
    let mut prev = -1.0;
    for b in &strs {
        let (c, last) = modulate_string(b, prev);
        chips.extend_from_slice(&c);
        prev = last;
    }
    let chips: Vec<u64> = chips.iter().map(|&c| (-c).to_bits()).collect();
    let decoded = decode_strings(&chips, lead);
    assert_eq!(decoded.len(), 3);
    for (k, (at, s)) in decoded.iter().enumerate() {
        assert_eq!((*at, &s.bits), (k, &strs[k]));
    }
    assert_eq!(demod_string(&chips, lead + 401, None), None);
    assert!(decode_strings(&chips, chips.len() + 1).is_empty());
}
