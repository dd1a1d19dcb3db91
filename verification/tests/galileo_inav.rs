use hackrf_gnss::beidou_d1;
use hackrf_gnss::galileo_inav::{
    assemble_ephemeris, bits_to_hex, build_page_parts, check_page, data_sources_is_inav, deinterleave, encode_page,
    encode_part, find_sync, ggto_weeks, hex_to_bits, interleave, make_word0, make_word1, make_word10, make_word2,
    make_word3, make_word4, make_word5, make_word6, parse_word, put_bits, resume_after, sbits, ubits, AlmTail10,
    GalWord1, GalWord2, GalWord3, GalWord4, GalWord5, InavWord, PageExtras, CRC_SPAN_BITS, DS_CLOCK_E5B_E1,
    DS_INAV_E1B, F_REL_GAL, GAL_RESCAN_BACK, GST_GPS_WEEK_OFFSET, INTER_COLS, INTER_ROWS, MU_GAL, OMEGA_E_GAL,
    PAGE_SYMS, PART_BITS, PART_SYMS, SYNC, WORD_BITS,
};
use hackrf_gnss::sbas::conv_encode;
use std::f64::consts::PI;

/// The bits of a page part from its symbols, which must be free of errors.
fn decode_part(symbols: &[u8]) -> Vec<u8> {
    let coded = deinterleave(symbols);
    let mut bits: Vec<u8> = Vec::new();
    for k in 0..PART_BITS {
        bits.push(0);
        if conv_encode(&bits, true, 0)[2 * k..] != coded[2 * k..2 * k + 2] {
            bits[k] = 1;
        }
        assert_eq!(conv_encode(&bits, true, 0)[2 * k..], coded[2 * k..2 * k + 2]);
    }
    bits
}

#[test]
fn page_roundtrip_own_encoder_both_polarities() {
    let word = make_word1(27, 4080, -123456789, 987654, 2851669515);
    let sym = encode_page(&word, &PageExtras::default(), 0, true);
    assert_eq!(sym.len(), PAGE_SYMS);
    for pol in [1i8, -1i8] {
        let soft: Vec<i8> = sym.iter().map(|&s| pol * (1 - 2 * s as i8)).collect();
        let (j, p) = find_sync(&soft, 0).unwrap();
        assert_eq!((j, p), (0, pol));
        let hard: Vec<u8> = soft.iter().map(|&s| if s * p > 0 { 0 } else { 1 }).collect();
        let check = check_page(&decode_part(&hard[10..250]), &decode_part(&hard[260..500]));
        assert!(check.crc_ok && check.eo_ok);
        assert_eq!(check.word.as_ref().unwrap(), &word);
    }
    let zeros = vec![0u8; PART_BITS];
    let mut odd = vec![0u8; PART_BITS];
    odd[0] = 1;
    let chk = check_page(&zeros, &odd);
    assert!(!chk.weight_ok && !chk.crc_ok);
}

#[test]
fn sign_extension_extremes() {
    let w = make_word4(1, 2, -(1 << 15), (1 << 15) - 1, 0, -(1 << 30), -(1 << 20), -32);
    match parse_word(&w).unwrap() {
        InavWord::W4(f) => {
            assert_eq!(f.cic as f64 * 2f64.powi(-29), -(1i64 << 15) as f64 * 2f64.powi(-29));
            assert_eq!(f.cis as f64 * 2f64.powi(-29), ((1i64 << 15) - 1) as f64 * 2f64.powi(-29));
            assert_eq!(f.af0 as f64 * 2f64.powi(-34), -(1i64 << 30) as f64 * 2f64.powi(-34));
            assert_eq!(f.af1 as f64 * 2f64.powi(-46), -(1i64 << 20) as f64 * 2f64.powi(-46));
            assert_eq!(f.af2 as f64 * 2f64.powi(-59), -32.0 * 2f64.powi(-59));
        }
        _ => panic!(),
    }
    let w = make_word2(3, i64::from(i32::MIN), i64::from(i32::MAX), -1, -(1 << 13));
    match parse_word(&w).unwrap() {
        InavWord::W2(f) => {
            assert_eq!(f.omega0 as f64 * 2f64.powi(-31) * PI, i32::MIN as f64 * 2f64.powi(-31) * PI);
            assert_eq!(f.i0 as f64 * 2f64.powi(-31) * PI, i32::MAX as f64 * 2f64.powi(-31) * PI);
            assert_eq!(f.omega as f64 * 2f64.powi(-31) * PI, -1.0 * 2f64.powi(-31) * PI);
            assert_eq!(f.idot as f64 * 2f64.powi(-43) * PI, -(1i64 << 13) as f64 * 2f64.powi(-43) * PI);
        }
        _ => panic!(),
    }
    let mut w = vec![0u8; WORD_BITS];
    put_bits(&mut w, 0, 6, 21);
    assert!(parse_word(&w).is_none());
}

#[test]
fn ggto_rollover_law() {
    assert_eq!(ggto_weeks(0, 63), 1);
    assert_eq!(ggto_weeks(63, 1), -2);
    assert_eq!(ggto_weeks(10, 10), 0);
}

#[test]
fn data_sources_gate() {
    assert!(!data_sources_is_inav(258));
    assert!(data_sources_is_inav(513));
    assert!(data_sources_is_inav(516));
    assert!(data_sources_is_inav(517));
    assert!(!data_sources_is_inav(DS_INAV_E1B));
    assert!(!data_sources_is_inav(DS_CLOCK_E5B_E1));
}

#[test]
fn constants_differ_from_gps() {
    assert_ne!(MU_GAL as f64, 3.986005e14);
    assert_eq!(MU_GAL, beidou_d1::MU_BDS);
    assert_ne!(OMEGA_E_GAL, beidou_d1::OMEGA_BDS);
    assert_eq!(OMEGA_E_GAL as f64 / 1e15, 7.2921151467e-5);
    assert_ne!(F_REL_GAL as f64 / 1e19, -4.442807633e-10);
    assert_eq!(GAL_RESCAN_BACK, 502);
    assert_eq!(PAGE_SYMS, 500);
    assert_eq!(CRC_SPAN_BITS, 196);
}

#[test]
fn hex_text_and_bits() {
    let bits = vec![1u8, 0, 1, 0, 1, 1, 1, 1, 0, 0, 1, 1];
    let hex = bits_to_hex(&bits);
    assert_eq!(hex, "af30");
    assert_eq!(hex_to_bits(&hex, 12), bits);
    assert_eq!(hex_to_bits("0A", 8), vec![0, 0, 0, 0, 1, 0, 1, 0]);
}

#[test]
fn the_interleaver_reads_rows_from_columns() {
    let ident: Vec<u16> = (0..PART_SYMS as u16).collect();
    let inter = interleave(&ident);
    assert_eq!(inter[..3], [0, INTER_ROWS as u16, 2 * INTER_ROWS as u16]);
    assert_eq!(inter[INTER_COLS], 1);
    assert_eq!(deinterleave(&inter), ident);
}

#[test]
fn sync_is_found_after_garbage() {
    let word = make_word5(1, 2, 3, 4, 5, 0, 0, 0, 0, 1234, 345600, [0; 5]);
    let sym = encode_page(&word, &PageExtras::default(), 0, true);
    let mut signs: Vec<i8> = (0..37).map(|i| if i % 2 == 0 { 1 } else { -1 }).collect();
    signs.extend(sym.iter().map(|&s| 1 - 2 * s as i8));
    assert_eq!(find_sync(&signs, 0), Some((37, 1)));
    assert_eq!(find_sync(&signs[..40], 0), None);
    let level = vec![0i8; 50];
    assert_eq!(find_sync(&level, 0), None);
    assert_eq!(sym[..10], SYNC);
}

#[test]
fn a_damaged_page_is_not_read() {
    let word = make_word1(27, 4080, -123456789, 987654, 2851669515);
    let (even, mut odd) = build_page_parts(&word, &PageExtras::default(), 0);
    let good = check_page(&even, &odd);
    assert!(good.crc_ok && good.word.is_some());
    assert_eq!(resume_after(100, Some(&good)), 600);
    odd[20] ^= 1;
    let bad = check_page(&even, &odd);
    assert!(!bad.crc_ok && bad.word.is_none());
    assert_eq!(resume_after(100, Some(&bad)), 101);
    assert_eq!(resume_after(100, None), 101);
    let (even, odd) = build_page_parts(&word, &PageExtras::default(), 1);
    let alert = check_page(&even, &odd);
    assert!(alert.crc_ok && alert.alert && alert.word.is_none());
    assert_eq!(encode_part(&even, true).len(), 250);
}

#[test]
fn word_fields_read_back() {
    match parse_word(&make_word3(9, -1, -2, 3, -4, 5, -6, 107)).unwrap() {
        InavWord::W3(f) => {
            assert_eq!(
                f,
                GalWord3 { iodnav: 9, omega_dot: -1, delta_n: -2, cuc: 3, cus: -4, crc: 5, crs: -6, sisa: 107 }
            );
        }
        _ => panic!(),
    }
    match parse_word(&make_word6(-7, 8, -9, 3, 200, 201, 5, -10, 600000)).unwrap() {
        InavWord::W6(f) => {
            assert_eq!((f.a0, f.a1, f.dt_ls, f.dt_lsf), (-7, 8, -9, -10));
            assert_eq!((f.wn0t, f.wn_lsf, f.dn, f.tow), (200, 201, 5, 600000));
            assert_eq!(f.t0t, 3 * 3600);
        }
        _ => panic!(),
    }
    match parse_word(&make_word0(2, 1234, 345600)).unwrap() {
        InavWord::W0(f) => assert_eq!(f.time, Some((1234, 345600))),
        _ => panic!(),
    }
    match parse_word(&make_word0(1, 1234, 345600)).unwrap() {
        InavWord::W0(f) => assert_eq!(f.time, None),
        _ => panic!(),
    }
    match parse_word(&make_word10(7, -300, 20, 100, 33, &AlmTail10::default())).unwrap() {
        InavWord::W10(f) => {
            let g = f.ggto.unwrap();
            assert_eq!((f.ioda, g.a0g, g.a1g, g.t0g, g.wn0g), (7, -300, 20, 100 * 3600, 33));
        }
        _ => panic!(),
    }
    match parse_word(&make_word10(7, -1, -1, 255, 63, &AlmTail10::default())).unwrap() {
        InavWord::W10(f) => assert!(f.ggto.is_none()),
        _ => panic!(),
    }
}

fn words() -> (GalWord1, GalWord2, GalWord3, GalWord4, GalWord5) {
    let w1 = match parse_word(&make_word1(27, 4080, 11, 12, 13)).unwrap() {
        InavWord::W1(f) => f,
        _ => panic!(),
    };
    let w2 = match parse_word(&make_word2(27, 21, 22, 23, 24)).unwrap() {
        InavWord::W2(f) => f,
        _ => panic!(),
    };
    let w3 = match parse_word(&make_word3(27, 31, 32, 33, 34, 35, 36, 37)).unwrap() {
        InavWord::W3(f) => f,
        _ => panic!(),
    };
    let w4 = match parse_word(&make_word4(27, 2, 41, 42, 4080, 44, 45, 6)).unwrap() {
        InavWord::W4(f) => f,
        _ => panic!(),
    };
    let w5 = match parse_word(&make_word5(1, 2, 3, 4, -5, 0, 0, 0, 0, 1410, 345600, [0; 5])).unwrap() {
        InavWord::W5(f) => f,
        _ => panic!(),
    };
    (w1, w2, w3, w4, w5)
}

#[test]
fn words_of_one_issue_make_an_ephemeris() {
    let (w1, mut w2, w3, w4, mut w5) = words();
    let g = assemble_ephemeris(&w1, &w2, &w3, &w4, Some(&w5), None).unwrap();
    assert_eq!((g.iodnav, g.sisa, g.tgd, g.health), (27, 37, -5, 0));
    assert_eq!(g.week, 1410 + GST_GPS_WEEK_OFFSET);
    assert_eq!(g.w1.toe, 4080 * 60);
    let g = assemble_ephemeris(&w1, &w2, &w3, &w4, Some(&w5), Some(1411)).unwrap();
    assert_eq!(g.week, 1411 + GST_GPS_WEEK_OFFSET);
    w2.iodnav = w1.iodnav.wrapping_add(1);
    assert!(assemble_ephemeris(&w1, &w2, &w3, &w4, Some(&w5), None).is_none());
    w2.iodnav = w1.iodnav;
    w5.e1b_hs = 2;
    w5.e1b_dvs = 1;
    let g = assemble_ephemeris(&w1, &w2, &w3, &w4, Some(&w5), None).unwrap();
    assert_eq!(g.health, (2 << 1) | 1);
    let g = assemble_ephemeris(&w1, &w2, &w3, &w4, None, None).unwrap();
    assert_eq!((g.health, g.tgd, g.week), (0, 0, 0));
}

#[test]
fn fields_of_a_bit_row() {
    let mut bits = vec![0u8; 16];
    put_bits(&mut bits, 3, 7, -5);
    assert_eq!(sbits(&bits, 3, 7), -5);
    assert_eq!(ubits(&bits, 3, 7), 123);
    assert_eq!(ubits(&bits, 0, 3), 0);
    assert_eq!(ubits(&bits, 10, 6), 0);
}
