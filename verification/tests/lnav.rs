use hackrf_gnss::gps::lnav::{
    bi, bu, find_subframes, parse_ephemeris, word_decode, PAR_PREV, PAR_TAPS, PREAMBLE,
};

#[test]
fn a_stream_with_no_preamble_yields_no_subframes() {
    let bits = vec![0u8; 900];
    assert!(find_subframes(&bits).is_empty());
    assert!(parse_ephemeris(&[]).is_none());
}

fn put(word: &mut [u8; 24], pos: usize, n: usize, value: i64) {
    for k in 0..n {
        word[pos - 1 + k] = ((value >> (n - 1 - k)) & 1) as u8;
    }
}

/// A word of 30 bits from its data bits and the two bits before it.
fn encode(d: &[u8; 24], d29s: u8, d30s: u8) -> Vec<u8> {
    let mut w: Vec<u8> = d.iter().map(|b| b ^ d30s).collect();
    for k in 0..6 {
        let mut v = if PAR_PREV[k] == 29 { d29s } else { d30s };
        for n in 0..24 {
            v ^= PAR_TAPS[k][n] & d[n];
        }
        w.push(v);
    }
    w
}

fn subframe(stream: &mut Vec<u8>, sfid: i64, tow_next: i64, body: &[[u8; 24]; 8]) {
    let mut words = vec![[0u8; 24]; 2];
    words[0][..8].copy_from_slice(&PREAMBLE);
    put(&mut words[1], 1, 17, tow_next);
    put(&mut words[1], 20, 3, sfid);
    words.extend_from_slice(body);
    for w in &words {
        let n = stream.len();
        let coded = encode(w, stream[n - 2], stream[n - 1]);
        stream.extend_from_slice(&coded);
    }
}

/// The first three subframes of a message.
fn message(iode3: i64) -> Vec<u8> {
    let mut s = vec![0u8; 2];
    let mut b1 = [[0u8; 24]; 8];
    put(&mut b1[0], 1, 10, 302);
    put(&mut b1[0], 23, 2, 1);
    put(&mut b1[4], 17, 8, -7);
    put(&mut b1[5], 1, 8, 44);
    put(&mut b1[5], 9, 16, 21600);
    put(&mut b1[6], 9, 16, -33);
    put(&mut b1[7], 1, 22, -123456);
    subframe(&mut s, 1, 1000, &b1);
    let mut b2 = [[0u8; 24]; 8];
    put(&mut b2[0], 1, 8, 44);
    put(&mut b2[0], 9, 16, -321);
    put(&mut b2[1], 17, 8, 0xff);
    put(&mut b2[2], 1, 24, 0xfffffe);
    let e = 0x0100_0000i64;
    put(&mut b2[3], 17, 8, e >> 24);
    put(&mut b2[4], 1, 24, e);
    let sqrt_a = 5153i64 << 19;
    put(&mut b2[5], 17, 8, sqrt_a >> 24);
    put(&mut b2[6], 1, 24, sqrt_a);
    put(&mut b2[7], 1, 16, 21600);
    subframe(&mut s, 2, 1001, &b2);
    let mut b3 = [[0u8; 24]; 8];
    put(&mut b3[6], 1, 24, -9);
    put(&mut b3[7], 1, 8, iode3);
    put(&mut b3[7], 9, 14, -10);
    subframe(&mut s, 3, 1002, &b3);
    s
}

#[test]
fn an_encoded_message_is_read_back() {
    let bits = message(44);
    let subs = find_subframes(&bits);
    let found: Vec<(u8, u32, usize)> = subs.iter().map(|s| (s.sfid, s.tow_next, s.bit_index)).collect();
    assert_eq!(found, vec![(1, 1000, 2), (2, 1001, 302), (3, 1002, 602)]);
    let e = parse_ephemeris(&subs).expect("ephemeris");
    assert_eq!((e.week, e.iodc, e.iode), (302, 300, 44));
    assert_eq!((e.tgd, e.toc, e.toe), (-7, 21600, 21600));
    assert_eq!((e.af0, e.af1, e.af2), (-123456, -33, 0));
    assert_eq!((e.crs, e.m0, e.e), (-321, -2, 0x0100_0000));
    assert_eq!((e.sqrt_a, e.omega_dot, e.idot), (5153 << 19, -9, -10));
}

#[test]
fn health_and_fit_interval_are_read() {
    let subs = find_subframes(&message(44));
    let e = parse_ephemeris(&subs).expect("ephemeris");
    assert_eq!((e.health, e.fit_h), (0, Some(4)));
    let mut ill = find_subframes(&message(44));
    ill[0].words[2][16] = 1;
    ill[0].words[2][21] = 1;
    ill[1].words[9][16] = 1;
    let e = parse_ephemeris(&ill).expect("ephemeris");
    assert_eq!((e.health, e.fit_h), (33, None));
    assert_eq!((e.week, e.iodc, e.toe), (302, 300, 21600));
}

#[test]
fn only_the_first_subframe_of_a_number_is_read() {
    let mut subs = find_subframes(&message(44));
    let mut cut = find_subframes(&message(44)).remove(1);
    cut.words.truncate(3);
    subs.push(cut);
    assert_eq!(parse_ephemeris(&subs).map(|e| e.iode), Some(44));
}

#[test]
fn an_inverted_stream_reads_the_same() {
    let flipped: Vec<u8> = message(44).iter().map(|b| 1 - b).collect();
    let e = parse_ephemeris(&find_subframes(&flipped)).expect("ephemeris");
    assert_eq!((e.week, e.iode, e.af0), (302, 44, -123456));
}

#[test]
fn issues_must_agree() {
    assert!(parse_ephemeris(&find_subframes(&message(45))).is_none());
}

#[test]
fn one_wrong_bit_drops_the_subframe() {
    let mut bits = message(44);
    bits[302 + 95] ^= 1;
    let ids: Vec<u8> = find_subframes(&bits).iter().map(|s| s.sfid).collect();
    assert_eq!(ids, vec![1, 3]);
}

#[test]
fn words_and_fields() {
    let mut d = [0u8; 24];
    put(&mut d, 5, 6, -3);
    assert_eq!(bu(&d, 5, 6), 61);
    assert_eq!(bi(&d, 5, 6), -3);
    let coded = encode(&d, 1, 1);
    assert_eq!(word_decode(&coded, 1, 1), (d, true));
    assert!(!word_decode(&coded, 0, 1).1);
}
