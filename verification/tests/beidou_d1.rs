use hackrf_gnss::beidou_d1::{
    bch_decode, bch_lfsr, bi, bu, find_candidates, find_subframes, parse_ephemeris, s2, sow_bdt_to_gpst, subframe_decode,
    u2, D1Fields, BCH_COSET, NH20, PREAMBLE,
};
use std::f64::consts::PI;

#[test]
fn bch_lfsr_matches_gnss_sdrlib_golden() {
    const GOLD: [u8; 15] = [1, 3, 7, 15, 6, 13, 2, 5, 11, 14, 4, 9, 10, 12, 0];
    for p in 0..15 {
        let mut e = [0u8; 15];
        e[p] = 1;
        assert_eq!(bch_lfsr(&e) ^ BCH_COSET, GOLD[p], "error syndrome bit {p}");
    }
    let cw = bch_encode(&[1, 0, 1, 1, 0, 0, 1, 0, 1, 1, 1]);
    assert_eq!(bch_lfsr(&cw), BCH_COSET, "codeword remainder");
}

fn bch_encode(data: &[u8; 11]) -> [u8; 15] {
    let mut w = [0u8; 15];
    w[..11].copy_from_slice(data);
    for p in 0..16u8 {
        let mut cand = w;
        for j in 0..4 {
            cand[11 + j] = (p >> (3 - j)) & 1;
        }
        if bch_lfsr(&cand) == BCH_COSET {
            return cand;
        }
    }
    panic!("no parity found for data");
}

#[test]
fn bch_roundtrip_all_words_and_single_error_correction() {
    let mut seen = [false; 16];
    seen[0] = true;
    for p in 0..15 {
        let mut e = [0u8; 15];
        e[p] = 1;
        let s = bch_lfsr(&e) as usize;
        assert!(!seen[s], "syndrome collision at bit {p}");
        seen[s] = true;
    }
    for v in 0..2048u16 {
        let mut data = [0u8; 11];
        for j in 0..11 {
            data[j] = ((v >> (10 - j)) & 1) as u8;
        }
        let code = bch_encode(&data);
        assert_eq!(bch_decode(&code), data, "clean decode {v}");
        let mut longer = code.to_vec();
        longer.extend([7, 200]);
        assert_eq!(bch_decode(&longer), data, "what follows a block is not read");
        for p in 0..15 {
            let mut bad = code;
            bad[p] ^= 1;
            assert_eq!(bch_decode(&bad), data, "flip at {p} of word {v}");
        }
    }
}

fn subframe_encode(data: &[u8; 300]) -> [u8; 300] {
    let mut out = [0u8; 300];
    out[..15].copy_from_slice(&data[..15]);
    let mut w1 = [0u8; 11];
    w1.copy_from_slice(&data[15..26]);
    out[15..30].copy_from_slice(&bch_encode(&w1));
    for wd in 1..10 {
        let mut d1 = [0u8; 11];
        let mut d2 = [0u8; 11];
        d1.copy_from_slice(&data[30 * wd..30 * wd + 11]);
        d2.copy_from_slice(&data[30 * wd + 11..30 * wd + 22]);
        let b1 = bch_encode(&d1);
        let b2 = bch_encode(&d2);
        for k in 0..15 {
            out[30 * wd + 2 * k] = b1[k];
            out[30 * wd + 2 * k + 1] = b2[k];
        }
    }
    out
}

fn subframe_data(frid: u8, sow: u32, filler: &mut dyn FnMut(usize) -> u8) -> [u8; 300] {
    let mut d = [0u8; 300];
    for (k, &b) in PREAMBLE.iter().enumerate() {
        d[k] = b;
    }
    for j in 0..3 {
        d[15 + j] = ((frid as u64 >> (2 - j)) & 1) as u8;
    }
    for j in 0..8 {
        d[18 + j] = ((sow as u64 >> (12 + 7 - j)) & 1) as u8;
    }
    for j in 0..12 {
        d[30 + j] = ((sow as u64 >> (11 - j)) & 1) as u8;
    }
    for k in 0..300 {
        let structured = k < 26 || (30..42).contains(&k);
        if !structured {
            d[k] = filler(k);
        }
    }
    d
}

#[test]
fn d1_framing_roundtrip_both_polarities() {
    let mut st = 0x1234_5678u64;
    let mut rng = move |_| {
        st ^= st << 13;
        st ^= st >> 7;
        st ^= st << 17;
        (st >> 63) as u8
    };
    let sow0 = 234_558u32;
    let mut stream: Vec<u8> = Vec::new();
    for k in 0..3u8 {
        let d = subframe_data(k + 1, sow0 + 6 * k as u32, &mut rng);
        stream.extend_from_slice(&subframe_encode(&d));
    }
    for inv in [false, true] {
        let bits: Vec<u8> = if inv {
            stream.iter().map(|b| 1 - b).collect()
        } else {
            stream.clone()
        };
        let subs = find_subframes(&bits);
        assert_eq!(subs.len(), 3, "inv={inv}");
        for (k, s) in subs.iter().enumerate() {
            assert_eq!(s.bit_index, 300 * k);
            assert_eq!(s.frid, k as u8 + 1);
            assert_eq!(s.sow_bdt, sow0 + 6 * k as u32);
        }
    }
}

#[test]
fn d1_framing_rejects_unpaired_candidates() {
    let mut st = 0xabcd_ef01u64;
    let mut rng = move |_| {
        st ^= st << 13;
        st ^= st >> 7;
        st ^= st << 17;
        (st >> 63) as u8
    };
    let d = subframe_data(1, 100_002, &mut rng);
    let mut stream: Vec<u8> = (0..600).map(|_| rng(0)).collect();
    stream.extend_from_slice(&subframe_encode(&d));
    stream.extend((0..600).map(|_| rng(0)));
    assert!(find_subframes(&stream).is_empty());
}

#[test]
fn d1_framing_noise_is_empty() {
    let mut st = 0x5555_aaaa_1234u64;
    let bits: Vec<u8> = (0..100_000)
        .map(|_| {
            st ^= st << 13;
            st ^= st >> 7;
            st ^= st << 17;
            (st >> 63) as u8
        })
        .collect();
    assert!(find_subframes(&bits).is_empty());
}

#[test]
fn d1_ephemeris_roundtrip() {
    let (sqrt_a, e, m0, delta_n) = (5283.0f64, 0.004f64, 1.1f64, 4.5e-9f64);
    let (omega0, omega, i0, idot, omega_dot) = (0.7f64, -1.3f64, 0.96f64, 1.0e-10f64, -8.0e-9f64);
    let (cuc, cus, crc, crs, cic, cis) = (3.0e-6f64, -4.0e-6f64, 210.0f64, -35.0f64, 2.0e-8f64, -2.5e-8f64);
    let (af0, af1, tgd) = (3.0e-4f64, 1.0e-11f64, 2.0e-9f64);
    let toe = sow_bdt_to_gpst(234_552);
    let toc = sow_bdt_to_gpst(234_552);
    let sow0 = 234_600u32;
    let mut zero = |_| 0;
    let mut d = [subframe_data(1, sow0, &mut zero), subframe_data(2, sow0 + 6, &mut zero), subframe_data(3, sow0 + 12, &mut zero)];
    let put_u = |d: &mut [u8; 300], pos: usize, n: usize, v: u64| {
        for j in 0..n {
            d[pos + j] = ((v >> (n - 1 - j)) & 1) as u8;
        }
    };
    let put2 = |d: &mut [u8; 300], p1: usize, l1: usize, p2: usize, l2: usize, v: u64| {
        put_u(d, p1, l1, v >> l2);
        put_u(d, p2, l2, v & ((1 << l2) - 1));
    };
    let twos = |v: f64, scale: f64, n: usize| -> u64 {
        let q = (v / scale).round() as i64;
        (q & ((1i64 << n) - 1)) as u64
    };
    put_u(&mut d[0], 60, 13, 900);
    put2(&mut d[0], 73, 9, 90, 8, (234_552 / 8) as u64);
    put_u(&mut d[0], 98, 10, twos(tgd / 0.1e-9, 1.0, 10));
    put_u(&mut d[0], 214, 11, 0);
    put2(&mut d[0], 225, 7, 240, 17, twos(af0, 2f64.powi(-33), 24));
    put2(&mut d[0], 257, 5, 270, 17, twos(af1, 2f64.powi(-50), 22));
    put2(&mut d[1], 42, 10, 60, 6, twos(delta_n / PI, 2f64.powi(-43), 16));
    put2(&mut d[1], 66, 16, 90, 2, twos(cuc, 2f64.powi(-31), 18));
    put2(&mut d[1], 92, 20, 120, 12, twos(m0 / PI, 2f64.powi(-31), 32));
    put2(&mut d[1], 132, 10, 150, 22, (e / 2f64.powi(-33)).round() as u64);
    put_u(&mut d[1], 180, 18, twos(cus, 2f64.powi(-31), 18));
    put2(&mut d[1], 198, 4, 210, 14, twos(crc, 2f64.powi(-6), 18));
    put2(&mut d[1], 224, 8, 240, 10, twos(crs, 2f64.powi(-6), 18));
    put2(&mut d[1], 250, 12, 270, 20, (sqrt_a / 2f64.powi(-19)).round() as u64);
    put_u(&mut d[1], 290, 2, ((234_552 / 8) >> 15) as u64);
    put2(&mut d[2], 42, 10, 60, 5, ((234_552 / 8) & 0x7FFF) as u64);
    put2(&mut d[2], 65, 17, 90, 15, twos(i0 / PI, 2f64.powi(-31), 32));
    put2(&mut d[2], 105, 7, 120, 11, twos(cic, 2f64.powi(-31), 18));
    put2(&mut d[2], 131, 11, 150, 13, twos(omega_dot / PI, 2f64.powi(-43), 24));
    put2(&mut d[2], 163, 9, 180, 9, twos(cis, 2f64.powi(-31), 18));
    put2(&mut d[2], 189, 13, 210, 1, twos(idot / PI, 2f64.powi(-43), 14));
    put2(&mut d[2], 211, 21, 240, 11, twos(omega0 / PI, 2f64.powi(-31), 32));
    put2(&mut d[2], 251, 11, 270, 21, twos(omega / PI, 2f64.powi(-31), 32));

    let mut stream: Vec<u8> = Vec::new();
    for dd in &d {
        stream.extend_from_slice(&subframe_encode(dd));
    }
    let subs = find_subframes(&stream);
    assert_eq!(subs.len(), 3);
    let d = parse_ephemeris(&subs).expect("ephemeris assembles");
    let sc = |v: i64, p: i32| v as f64 * 2f64.powi(p);
    assert!((d.sqrt_a as f64 * 2f64.powi(-19) - sqrt_a).abs() < 1e-3, "sqrtA {} vs {}", d.sqrt_a, sqrt_a);
    assert!((d.e as f64 * 2f64.powi(-33) - e).abs() < 1e-9, "e");
    assert!((sc(d.m0, -31) * PI - m0).abs() < 1e-9, "m0 {} vs {}", d.m0, m0);
    assert!((sc(d.omega0, -31) * PI - omega0).abs() < 1e-9, "omg0");
    assert!((sc(d.omega, -31) * PI - omega).abs() < 1e-9, "omg");
    assert!((sc(d.i0, -31) * PI - i0).abs() < 1e-9, "i0");
    assert_eq!(d.toe, toe, "toe {} vs {}", d.toe, toe);
    assert_eq!(d.toc, toc, "toc");
    assert!((sc(d.af0, -33) - af0).abs() < 1e-9, "af0");
    assert!((sc(d.crc, -6) - crc).abs() < 0.1, "crc");
    assert!((sc(d.crs, -6) - crs).abs() < 0.1, "crs");
    assert_eq!(d.health, 0, "SatH1 carries into the ephemeris");
    assert_eq!(d.week, 900);
    assert!((sc(d.delta_n, -43) * PI - delta_n).abs() < 1e-12);
    assert!((sc(d.omega_dot, -43) * PI - omega_dot).abs() < 1e-12);
    assert!((sc(d.idot, -43) * PI - idot).abs() < 1e-12);
    assert!((sc(d.af1, -50) - af1).abs() < 1e-14);
    assert!((d.tgd as f64 * 0.1e-9 - tgd).abs() < 1e-12);
    for (got, want) in [(d.cuc, cuc), (d.cus, cus), (d.cic, cic), (d.cis, cis)] {
        assert!((sc(got, -31) - want).abs() < 1e-9);
    }
}

#[test]
fn nh20_sidelobes_are_small() {
    let mut worst = 0i32;
    for o in 1..20 {
        let c: i32 = (0..20).map(|k| NH20[k] as i32 * NH20[(k + o) % 20] as i32).sum();
        worst = worst.max(c.abs());
    }
    assert!(worst <= 6, "NH20 max sidelobe {worst} (peak 20)");
}


#[test]
fn bdt_is_fourteen_seconds_behind() {
    assert_eq!(sow_bdt_to_gpst(0), 14);
    assert_eq!(sow_bdt_to_gpst(604_790), 4);
}

#[test]
fn split_fields() {
    let d = [1u8, 0, 1, 1, 0, 0, 1, 1];
    assert_eq!(bu(&d, 0, 4), 0b1011);
    assert_eq!(bi(&d, 0, 4), 0b1011 - 16);
    assert_eq!(u2(&d, 0, 2, 6, 2), 0b1011);
    assert_eq!(s2(&d, 0, 2, 6, 2), 0b1011 - 16);
}

#[test]
fn a_subframe_needs_its_number_and_time() {
    let mut zero = |_| 0;
    let good = subframe_encode(&subframe_data(2, 600, &mut zero));
    let s = subframe_decode(&good, 7).expect("subframe");
    assert_eq!((s.frid, s.sow_bdt, s.bit_index), (2, 600, 7));
    assert_eq!(s.debug_fields(), D1Fields::OrbitShape { sqrt_a: 0, e: 0, toe1: 0 });
    assert!(subframe_decode(&subframe_encode(&subframe_data(0, 600, &mut zero)), 0).is_none());
    assert!(subframe_decode(&subframe_encode(&subframe_data(2, 601, &mut zero)), 0).is_none());
}

#[test]
fn candidates_come_in_order() {
    let mut zero = |_| 0;
    let mut stream = vec![0u8; 13];
    for k in 0..3u8 {
        stream.extend_from_slice(&subframe_encode(&subframe_data(k + 1, 600 + 6 * k as u32, &mut zero)));
    }
    let at: Vec<usize> = find_candidates(&stream).iter().map(|s| s.bit_index).collect();
    assert_eq!(at, vec![13, 313, 613]);
    let flipped: Vec<u8> = stream.iter().map(|b| 1 - b).collect();
    let at: Vec<usize> = find_subframes(&flipped).iter().map(|s| s.bit_index).collect();
    assert_eq!(at, vec![13, 313, 613]);
}
