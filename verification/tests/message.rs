use hackrf_gnss::iridium::bch;
use hackrf_gnss::iridium::message::{
    bits_to_u32, block_ok, classify, classify_at, classify_effort, de_dqpsk, de_interleave, de_interleave3,
    decode_blocks, decode_ibc, decode_ira, decode_ms, signed12, slice_extra, symbol_distance, Class, Effort, Ibc, Ira,
    Ms, ACCESS_DOWNLINK, ACCESS_NEXT_DL, ACCESS_NEXT_UL, ACCESS_UPLINK, F_DUPLEX_HZ, F_SIMPLEX_HZ, HEADER_MESSAGING,
    NXT_UW_DOWNLINK, NXT_UW_UPLINK, UW_DOWNLINK, UW_UPLINK,
};

fn ra_burst(payload_bits: &str) -> String {
    let mut blocks: Vec<u32> = Vec::new();
    for i in 0..3 {
        let chunk: String = payload_bits
            .chars()
            .skip(i * 21)
            .take(21)
            .chain(std::iter::repeat('0'))
            .take(21)
            .collect();
        let d = u32::from_str_radix(&chunk, 2).unwrap() << 10;
        blocks.push(d | bch::gf2_remainder(bch::RINGALERT, d));
    }
    let bits: Vec<String> = blocks
        .iter()
        .map(|w| {
            let mut s: String = (0..31)
                .map(|i| if (w >> (30 - i)) & 1 == 1 { '1' } else { '0' })
                .collect();
            let ones = s.bytes().filter(|c| *c == b'1').count();
            s.push(if ones % 2 == 1 { '1' } else { '0' });
            s
        })
        .collect();
    let mut symbols: Vec<String> = vec![String::new(); 48];
    for (bi, b) in bits.iter().enumerate() {
        let sym: Vec<String> = (0..16).map(|k| b[k * 2..k * 2 + 2].to_string()).collect();
        for (k, s) in sym.iter().enumerate() {
            symbols[47 - (k * 3 + bi)] = s.clone();
        }
    }
    let inter: String = symbols
        .iter()
        .map(|s| {
            let c: Vec<char> = s.chars().collect();
            format!("{}{}", c[1], c[0])
        })
        .collect();
    format!("{}{}", ACCESS_DOWNLINK, inter)
}

#[test]
fn a_burst_without_an_access_word_is_rejected() {
    assert_eq!(classify(&"1".repeat(200)), Class::NoAccess);
}

#[test]
fn uplink_and_next_access_words_are_recognised() {
    assert_eq!(classify(&format!("{}{}", ACCESS_UPLINK, "0".repeat(200))), Class::Uplink);
    assert_eq!(classify(&format!("{}{}", ACCESS_NEXT_DL, "0".repeat(200))), Class::Next);
    assert_eq!(classify(&format!("{}{}", ACCESS_NEXT_UL, "0".repeat(200))), Class::Next);
}

#[test]
fn a_messaging_header_is_recognised() {
    let b = format!("{}{}{}", ACCESS_DOWNLINK, HEADER_MESSAGING, "0".repeat(256));
    match classify(&b) {
        Class::Messaging(ms) => assert!(ms.blocks > 0, "no blocks recovered"),
        other => panic!("expected messaging, got {:?}", other),
    }
}

#[test]
fn a_time_location_header_is_recognised() {
    let b = format!("{}11{}{}", ACCESS_DOWNLINK, "0".repeat(94), "1".repeat(64));
    assert_eq!(classify(&b), Class::TimeLocation);
}

#[test]
fn a_ring_alert_round_trips_through_classification() {
    let mut p = String::new();
    p.push_str(&format!("{:07b}", 51));
    p.push_str(&format!("{:06b}", 27));
    p.push_str(&"0".repeat(50));
    let burst = ra_burst(&p);
    match classify(&burst) {
        Class::RingAlert(ira) => {
            assert_eq!(ira.sat, 51);
            assert_eq!(ira.beam, 27);
        }
        other => panic!("expected a ring alert, got {:?}", other),
    }
}

#[test]
fn noise_after_a_valid_access_word_does_not_become_a_message() {
    let mut alarms = 0;
    for seed in 0u64..800 {
        let mut s = String::from(ACCESS_DOWNLINK);
        let mut x = seed.wrapping_mul(6364136223846793005).wrapping_add(1);
        for _ in 0..500 {
            x = x.wrapping_mul(6364136223846793005).wrapping_add(1442695040888963407);
            s.push(if (x >> 33) & 1 == 1 { '1' } else { '0' });
        }
        match classify(&s) {
            Class::RingAlert(_) | Class::Broadcast(_) => alarms += 1,
            _ => {}
        }
    }
    assert_eq!(alarms, 0, "{} noise bursts decoded as real messages", alarms);
}

#[test]
fn the_access_words_and_their_symbol_patterns_agree() {
    assert_eq!(de_dqpsk(ACCESS_DOWNLINK), UW_DOWNLINK.to_vec());
    assert_eq!(de_dqpsk(ACCESS_UPLINK), UW_UPLINK.to_vec());
    assert_eq!(de_dqpsk(ACCESS_NEXT_DL), NXT_UW_DOWNLINK.to_vec());
    assert_eq!(de_dqpsk(ACCESS_NEXT_UL), NXT_UW_UPLINK.to_vec());
}

#[test]
fn de_dqpsk_undoes_the_differential_encoding() {
    assert_eq!(de_dqpsk("00000000"), vec![0, 0, 0, 0]);
    assert_eq!(de_dqpsk("0001"), vec![0, 1]);
    assert_eq!(de_dqpsk(""), Vec::<u8>::new());
    assert_eq!(de_dqpsk("0"), Vec::<u8>::new());
}

#[test]
fn the_default_effort_is_strict() {
    assert_eq!(Effort::default(), Effort::Strict);
}

#[test]
fn a_corrupted_unique_word_is_recovered_only_in_harder_mode() {
    let mut p = String::new();
    p.push_str(&format!("{:07b}", 23));
    p.push_str(&format!("{:06b}", 9));
    p.push_str(&"0".repeat(50));
    let good = ra_burst(&p);
    let mut b: Vec<char> = good.chars().collect();
    b[22] = if b[22] == '1' { '0' } else { '1' };
    let damaged: String = b.into_iter().collect();

    assert_eq!(classify_effort(&damaged, None, Effort::Strict), Class::NoAccess,
               "strict mode must not accept a damaged unique word");
    match classify_effort(&damaged, None, Effort::Harder) {
        Class::RingAlert(ira) => {
            assert_eq!((ira.sat, ira.beam), (23, 9));
            assert!(ira.corrected >= 1, "the unique-word errors were not counted");
        }
        other => panic!("harder mode should have recovered it, got {:?}", other),
    }
}

#[test]
fn a_random_access_word_is_still_rejected() {
    let mut accepted = 0;
    let n = 600;
    for seed in 0u64..n {
        let mut x = seed.wrapping_mul(0x9E3779B97F4A7C15).wrapping_add(17);
        let mut s = String::new();
        for _ in 0..24 {
            x = x.wrapping_mul(6364136223846793005).wrapping_add(1442695040888963407);
            s.push(if (x >> 33) & 1 == 1 { '1' } else { '0' });
        }
        s.push_str(&"0".repeat(300));
        if classify_effort(&s, None, Effort::Harder) != Class::NoAccess {
            accepted += 1;
        }
    }
    assert!(accepted * 20 < n,
            "{} of {} random access words were accepted; the distance limit \
             is too loose", accepted, n);
}

#[test]
fn harder_mode_still_recognises_uplink_and_next() {
    let mut b: Vec<char> = format!("{}{}", ACCESS_UPLINK, "0".repeat(300)).chars().collect();
    b[22] = if b[22] == '1' { '0' } else { '1' };
    let s: String = b.into_iter().collect();
    assert_eq!(classify_effort(&s, None, Effort::Harder), Class::Uplink);
}

#[test]
fn the_two_effort_levels_trade_yield_against_false_alarms() {
    let mut strict = 0;
    let mut harder = 0;
    for seed in 0u64..800 {
        let mut s = String::from(ACCESS_DOWNLINK);
        let mut x = seed.wrapping_mul(6364136223846793005).wrapping_add(1);
        for _ in 0..500 {
            x = x.wrapping_mul(6364136223846793005).wrapping_add(1442695040888963407);
            s.push(if (x >> 33) & 1 == 1 { '1' } else { '0' });
        }
        if matches!(classify_effort(&s, None, Effort::Strict),
                    Class::RingAlert(_) | Class::Broadcast(_)) { strict += 1; }
        if matches!(classify_effort(&s, None, Effort::Harder),
                    Class::RingAlert(_) | Class::Broadcast(_)) { harder += 1; }
    }
    assert_eq!(strict, 0, "strict mode invented {} messages from noise", strict);
    assert!(harder > 0,
            "harder mode showed no false alarms in 800 noise bursts; either \
             the measurement changed or the mode is not doing anything");
    assert!(harder < 80, "harder mode false alarm rate exceeded 10%: {}", harder);
}

#[test]
fn the_frequency_gate_reproduces_the_reference_behaviour() {
    let mut p = String::new();
    p.push_str(&format!("{:07b}", 12));
    p.push_str(&format!("{:06b}", 3));
    p.push_str(&"0".repeat(50));
    let burst = ra_burst(&p);
    assert!(matches!(classify_at(&burst, Some(1_626_300_000)), Class::RingAlert(_)));
    assert!(!matches!(classify_at(&burst, Some(1_625_900_000)), Class::RingAlert(_)));
    assert!(matches!(classify_at(&burst, None), Class::RingAlert(_)));
}

#[test]
fn labels_match_the_reference_names() {
    assert_eq!(Class::TimeLocation.label(), "TL");
    assert_eq!(Class::Next.label(), "NX");
    assert_eq!(Class::Uplink.label(), "UL");
    assert_eq!(Class::Unknown.label(), "unknown");
    assert_eq!(Class::NoAccess.label(), "no-access");
    assert_eq!(Class::Lcw.label(), "LW");
    assert_eq!(Class::Messaging(Ms { blocks: 0, payload_bits: 0, corrected: 0 }).label(), "MS");
}

#[test]
fn de_interleave3_keeps_every_bit() {
    let g: String = (0..96).map(|i| if i % 3 == 0 { '1' } else { '0' }).collect();
    let (a, b, c) = de_interleave3(&g);
    assert_eq!(a.len() + b.len() + c.len(), 96);
    let ones = a.matches('1').count() + b.matches('1').count() + c.matches('1').count();
    assert_eq!(ones, g.matches('1').count(), "bits were lost or invented");
}

#[test]
fn de_interleave_splits_a_64_bit_group_evenly() {
    let g: String = (0..64).map(|i| if i % 2 == 0 { '1' } else { '0' }).collect();
    let (a, b) = de_interleave(&g);
    assert_eq!((a.len(), b.len()), (32, 32));
}

#[test]
fn slice_extra_keeps_the_remainder() {
    let (blocks, extra) = slice_extra(&"0".repeat(150), 64);
    assert_eq!(blocks.len(), 2);
    assert_eq!(extra.len(), 22);
    let (none, all) = slice_extra("0110", 64);
    assert!(none.is_empty());
    assert_eq!(all, "0110");
}

#[test]
fn signed_position_fields_sign_extend() {
    let mut bits = vec!['0'; 63];
    bits[13] = '1';
    bits[24] = '1';
    let s: String = bits.into_iter().collect();
    assert_eq!(signed12(&s, 13, 14..25), 1 - 2048);
    let z: String = vec!['0'; 63].into_iter().collect();
    assert_eq!(signed12(&z, 13, 14..25), 0);
}

#[test]
fn short_bursts_are_rejected_rather_than_read_past_the_end() {
    for n in [0usize, 1, 24, 30, 63, 95] {
        let b = format!("{}{}", ACCESS_DOWNLINK, "0".repeat(n));
        let _ = classify(&b);
    }
    assert!(decode_ira(&"0".repeat(10)).is_none());
    assert!(decode_ibc(&"0".repeat(10), Effort::Strict).is_none());
    assert!(decode_ms(&"0".repeat(10)).is_none());
}

#[test]
fn labels_cover_the_decoded_variants_too() {
    let ira = Ira { sat: 1, beam: 2, pos_x: 0, pos_y: 0, pos_z: 0, interval: 0,
                    slot: 0, eip: 0, bc_sb: 0, corrected: 0 };
    assert_eq!(Class::RingAlert(ira).label(), "IRA");
    let ibc = Ibc { bc_type: 0, sv_id: 1, beam_id: 2, slot: 0, sv_blocking: 0,
                    acqu_subband: 0, acqu_channels: 0, corrected: 0 };
    assert_eq!(Class::Broadcast(ibc).label(), "IBC");
}

#[test]
fn a_messaging_burst_with_no_usable_blocks_still_classifies() {
    let b = format!("{}{}", ACCESS_DOWNLINK, HEADER_MESSAGING);
    match classify(&b) {
        Class::Messaging(ms) => assert_eq!(ms.blocks, 0),
        other => panic!("expected messaging, got {:?}", other),
    }
}

#[test]
fn decode_blocks_stops_at_a_short_block() {
    let d = u32::from_str_radix("101100111000110101101", 2).unwrap() << 10;
    let word = d | bch::gf2_remainder(bch::RINGALERT, d);
    let good: String = (0..31)
        .map(|i| if (word >> (30 - i)) & 1 == 1 { '1' } else { '0' })
        .collect();
    let (payload, _c, used) = decode_blocks(&[good, "0101".to_string()], bch::RINGALERT);
    assert_eq!(used, 1);
    assert_eq!(payload.len(), 21);
}

#[test]
fn the_broadcast_path_rejects_bursts_it_cannot_verify() {
    assert!(decode_ibc(&format!("000000{}", "0".repeat(60)), Effort::Strict).is_none());
    assert!(decode_ibc(&format!("000001{}", "0".repeat(300)), Effort::Strict).is_none());
    let mut rejected = 0;
    for seed in 0u64..40 {
        let mut body = String::new();
        let mut x = seed.wrapping_mul(6364136223846793005).wrapping_add(7);
        for _ in 0..300 {
            x = x.wrapping_mul(6364136223846793005).wrapping_add(1442695040888963407);
            body.push(if (x >> 33) & 1 == 1 { '1' } else { '0' });
        }
        if decode_ibc(&format!("000000{}", body), Effort::Strict).is_none() {
            rejected += 1;
        }
    }
    assert_eq!(rejected, 40, "random bodies passed the broadcast checks");
}

#[test]
fn decode_blocks_stops_at_an_uncorrectable_block() {
    let d = u32::from_str_radix("101100111000110101101", 2).unwrap() << 10;
    let word = d | bch::gf2_remainder(bch::RINGALERT, d);
    let good: String = (0..31)
        .map(|i| if (word >> (30 - i)) & 1 == 1 { '1' } else { '0' })
        .collect();
    let mut b: Vec<char> = good.chars().collect();
    for i in 0..9 {
        b[i * 3] = if b[i * 3] == '1' { '0' } else { '1' };
    }
    let ruined: String = b.into_iter().collect();
    let (payload, _c, used) = decode_blocks(&[good.clone(), ruined], bch::RINGALERT);
    assert_eq!(used, 1, "the uncorrectable block should have stopped decoding");
    assert_eq!(payload.len(), 21);
}

#[test]
fn good_blocks_behind_a_bad_one_do_not_count() {
    let zero = "0".repeat(31);
    let one_off = format!("1{}", "0".repeat(30));
    let head = [zero.clone(), one_off];
    let whole = decode_blocks(&head, bch::RINGALERT);
    assert_eq!(whole, ("0".repeat(42), 1, 2));
    let tail = [head[0].clone(), head[1].clone(), "0".repeat(30), zero];
    assert_eq!(decode_blocks(&tail, bch::RINGALERT), whole);
}

#[test]
fn short_bursts_have_no_access_word() {
    for n in [0, 1, 23] {
        assert_eq!(classify(&ACCESS_DOWNLINK[..n]), Class::NoAccess);
    }
    let up = format!("{}1", ACCESS_UPLINK);
    assert_eq!(classify_at(&up, Some(1_626_270_000)), Class::Uplink);
    assert_eq!(classify_effort(&up, None, Effort::Strict), Class::Uplink);
}

/// A word with a bit that makes the number of ones in `sent` even.
fn word_text(w: u32, sent: u32) -> String {
    let mut s: String = (0..31).map(|i| if (w >> (30 - i)) & 1 == 1 { '1' } else { '0' }).collect();
    s.push(if sent.count_ones() % 2 == 1 { '1' } else { '0' });
    s
}

#[test]
fn words_and_distances() {
    assert_eq!(bits_to_u32("10110"), 22);
    assert_eq!(bits_to_u32(""), 0);
    assert_eq!(symbol_distance(&[0, 1, 2], &[0, 1, 2]), 0);
    assert_eq!(symbol_distance(&[0, 0, 0], &[0, 2, 3]), 2);
    assert_eq!(symbol_distance(&UW_DOWNLINK, &UW_DOWNLINK), 0);
}

#[test]
fn a_block_must_check_at_strict_effort() {
    let d = 0b101100111000110101101u32 << 10;
    let w = d | bch::gf2_remainder(bch::RINGALERT, d);
    assert_eq!(
        block_ok(&word_text(w, w), bch::RINGALERT, Effort::Strict),
        Some((String::from("101100111000110101101"), 0))
    );
    assert_eq!(block_ok(&word_text(w ^ 4, w), bch::RINGALERT, Effort::Strict), None);
    assert_eq!(
        block_ok(&word_text(w ^ 4, w), bch::RINGALERT, Effort::Harder),
        Some((String::from("101100111000110101101"), 1))
    );
    assert_eq!(block_ok(&word_text(w ^ 4, w ^ 4), bch::RINGALERT, Effort::Harder), None, "odd parity");
    assert_eq!(block_ok(&word_text(w, w)[..31], bch::RINGALERT, Effort::Strict), None, "too short");
}

#[test]
fn blocks_are_measured_in_bytes() {
    let block = format!("\u{e9}{}", "0".repeat(30));
    assert_eq!(block_ok(&block, bch::RINGALERT, Effort::Strict), Some(("0".repeat(21), 0)));
    assert_eq!(block_ok(&block, bch::RINGALERT, Effort::Harder), Some(("0".repeat(21), 0)));
    assert_eq!(block_ok(&block[..31], bch::RINGALERT, Effort::Strict), None);
    assert_eq!(decode_blocks(&[block[..31].to_string()], bch::RINGALERT), ("0".repeat(21), 0, 1));
    assert_eq!(decode_blocks(&[block[..30].to_string()], bch::RINGALERT), (String::new(), 0, 0));
}

#[test]
fn any_text_without_an_access_word_has_no_access() {
    assert_eq!(classify("\u{e9}t\u{e9}"), Class::NoAccess);
    assert_eq!(classify_effort("\u{e9}t\u{e9}", None, Effort::Harder), Class::NoAccess);
}

#[test]
fn simplex_frames_sit_above_the_band_edge() {
    assert!(F_DUPLEX_HZ < F_SIMPLEX_HZ);
    let burst = ra_burst(&format!("{:07b}{:06b}{}", 12, 3, "0".repeat(50)));
    assert!(!matches!(classify_at(&burst, Some(F_SIMPLEX_HZ - 1)), Class::RingAlert(_)));
    assert!(matches!(classify_at(&burst, Some(F_SIMPLEX_HZ + 1)), Class::RingAlert(_)));
}
